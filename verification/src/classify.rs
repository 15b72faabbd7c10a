//! Region classification for display: the label of a backing object and
//! the collapsing of long file paths to a fixed-width tail.

use vstd::prelude::*;
use crate::region::Backing;
use crate::strutil::dec_chars_of;
use crate::strutil::dec_string_of;

verus! {

/// A '/' stands at or after position `from`.
pub open spec fn has_slash_from(s: Seq<char>, from: int) -> bool {
    exists|i: int| from <= i < s.len() && s[i] == '/'
}

/// A '/' stands at or after position `from` with at most 36 characters
/// after it: dropping segments can end below the display threshold.
pub open spec fn trimmable_from(s: Seq<char>, from: int) -> bool {
    exists|i: int| from <= i < s.len() && s[i] == '/' && s.len() - i - 1 <= 36
}

/// Dropping segments can end below the display threshold.
pub open spec fn trimmable(s: Seq<char>) -> bool {
    trimmable_from(s, 0)
}

/// The tail that trimming keeps, scanning from position `p`: everything
/// after the first '/' whose tail is short enough, or after the last '/'
/// when no tail is short enough.
pub open spec fn trim_from(s: Seq<char>, p: int) -> Seq<char>
    recommends
        has_slash_from(s, p),
    decreases s.len() - p,
{
    if p < 0 || p >= s.len() {
        Seq::<char>::empty()
    } else if s[p] == '/' {
        if s.len() - p - 1 > 36 && has_slash_from(s, p + 1) {
            trim_from(s, p + 1)
        } else {
            s.subrange(p + 1, s.len() as int)
        }
    } else {
        trim_from(s, p + 1)
    }
}

/// What `trim_path` returns: the identity under 41 characters (and for a
/// long path without any '/', which offers nothing to drop); otherwise
/// `".../"` before the kept tail.
pub open spec fn trim_path_spec(s: Seq<char>) -> Seq<char> {
    if s.len() <= 40 {
        s
    } else if !has_slash_from(s, 0) {
        s
    } else {
        ".../"@ + trim_from(s, 0)
    }
}

fn has_slash_exec(s: &str, from: usize) -> (r: bool)
    ensures
        r == has_slash_from(s@, from as int),
{
    let n = s.unicode_len();
    let mut i = from;
    while i < n
        invariant
            n == s@.len(),
            from <= i,
            forall|k: int| from <= k < i ==> s@[k] != '/',
        decreases n - i,
    {
        if s.get_char(i) == '/' {
            return true;
        }
        i = i + 1;
    }
    false
}

/// Collapses a long path for display: under 41 characters the path is
/// returned as it is; past that, leading segments are dropped up to and
/// including a '/' until at most 36 characters remain, and `".../"` is
/// put in front of what is kept.
pub fn trim_path(s: &str) -> (r: String)
    ensures
        r@ == trim_path_spec(s@),
{
    let n = s.unicode_len();
    if n <= 40 {
        return String::from_str(s);
    }
    if !has_slash_exec(s, 0) {
        return String::from_str(s);
    }
    let mut p: usize = 0;
    loop
        invariant
            n == s@.len(),
            40 < n,
            0 <= p < n,
            has_slash_from(s@, p as int),
            trim_from(s@, 0) == trim_from(s@, p as int),
        decreases n - p,
    {
        let c = s.get_char(p);
        if c == '/' {
            if n - p - 1 <= 36 || !has_slash_exec(s, p + 1) {
                let mut out = String::from_str(".../");
                out.append(s.substring_char(p + 1, n));
                return out;
            }
        }
        proof {
            if s@[p as int] != '/' {
                let i = choose|i: int| p <= i < s@.len() && s@[i] == '/';
                assert(has_slash_from(s@, p + 1));
            }
        }
        p = p + 1;
    }
}

/// Trimming keeps any path of at most 40 characters exactly as it is.
pub proof fn lemma_trim_identity(s: Seq<char>)
    requires
        s.len() <= 40,
    ensures
        trim_path_spec(s) == s,
{
}

/// The tail that trimming keeps, where some segment tail is short
/// enough: it follows a '/' and holds at most 36 characters.
proof fn lemma_trim_from_short(s: Seq<char>, p: int)
    requires
        0 <= p,
        trimmable_from(s, p),
    ensures
        exists|i: int|
            p <= i < s.len() && s[i] == '/' && s.len() - i - 1 <= 36 && trim_from(s, p)
                == s.subrange(i + 1, s.len() as int),
    decreases s.len() - p,
{
    let w = choose|i: int| p <= i < s.len() && s[i] == '/' && s.len() - i - 1 <= 36;
    if s[p] == '/' {
        if s.len() - p - 1 > 36 && has_slash_from(s, p + 1) {
            assert(w != p);
            lemma_trim_from_short(s, p + 1);
        } else {
            if s.len() - p - 1 > 36 {
                assert(w != p);
                assert(false);
            }
            assert(trim_from(s, p) == s.subrange(p + 1, s.len() as int));
        }
    } else {
        assert(w != p);
        lemma_trim_from_short(s, p + 1);
    }
}

/// Trimming a long path with a short-enough segment tail gives `".../"`
/// before a tail of at most 36 characters, at most 40 in all.
pub proof fn lemma_trim_long(s: Seq<char>)
    requires
        s.len() > 40,
        trimmable(s),
    ensures
        exists|i: int|
            0 <= i < s.len() && s[i] == '/' && s.len() - i - 1 <= 36 && trim_path_spec(s) == ".../"@
                + s.subrange(i + 1, s.len() as int),
        trim_path_spec(s).len() <= 40,
{
    let w = choose|i: int| 0 <= i < s.len() && s[i] == '/' && s.len() - i - 1 <= 36;
    assert(has_slash_from(s, 0));
    lemma_trim_from_short(s, 0);
    reveal_strlit(".../");
}

/// Trimming is idempotent: applying it to an already-trimmed path
/// changes nothing, whether the path was short or was collapsed.
pub proof fn lemma_trim_idempotent(s: Seq<char>)
    requires
        s.len() <= 40 || trimmable(s),
    ensures
        trim_path_spec(trim_path_spec(s)) == trim_path_spec(s),
{
    if s.len() > 40 {
        lemma_trim_long(s);
    }
}

/// The label of a backing object, as the inspector prints it.
pub open spec fn label_chars_of(b: Backing) -> Seq<char> {
    match b {
        Backing::FilePath(p) => p@,
        Backing::Heap => "Heap"@,
        Backing::Stack => "Stack"@,
        Backing::ThreadStack(tid) => "Thread Stack. TID: "@ + dec_chars_of(tid as nat),
        Backing::Vdso => "Virtual Dynamically Linked Shared Object"@,
        Backing::Vvar => "Shared kernel variables"@,
        Backing::Vsyscall => "Virtual syscalls"@,
        Backing::Anonymous => "Anonymous/Private"@,
        Backing::Other(p) => "Other: "@ + p@,
    }
}

/// Renders the label of a backing object.
pub fn label_of(b: &Backing) -> (r: String)
    ensures
        r@ == label_chars_of(*b),
{
    match b {
        Backing::FilePath(p) => String::from_str(p.as_str()),
        Backing::Heap => String::from_str("Heap"),
        Backing::Stack => String::from_str("Stack"),
        Backing::ThreadStack(tid) => {
            let mut out = String::from_str("Thread Stack. TID: ");
            let num = dec_string_of(*tid as u64);
            out.append(num.as_str());
            out
        },
        Backing::Vdso => String::from_str("Virtual Dynamically Linked Shared Object"),
        Backing::Vvar => String::from_str("Shared kernel variables"),
        Backing::Vsyscall => String::from_str("Virtual syscalls"),
        Backing::Anonymous => String::from_str("Anonymous/Private"),
        Backing::Other(p) => {
            let mut out = String::from_str("Other: ");
            out.append(p.as_str());
            out
        },
    }
}

/// Renders the label of a backing object with its path collapsed for
/// display.
pub fn display_label(b: &Backing) -> (r: String)
    ensures
        r@ == trim_path_spec(label_chars_of(*b)),
{
    let label = label_of(b);
    trim_path(label.as_str())
}

} // verus!
