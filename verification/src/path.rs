//! Paths: the segments of a path given to a node.
//!
//! A path that is blank has no segments. Any other path is brought to its
//! canonical form, stripped of the slashes at its ends, and cut at the
//! slashes that remain. A path with characters outside ASCII is cut as it
//! stands: the canonical form is computed for ASCII paths only.

use vstd::prelude::*;

verus! {

/// The canonical form of a path: the path with `.` segments and repeated
/// slashes removed and `..` segments resolved, as the virtual filesystem
/// layer computes it.
pub uninterp spec fn canonical_path(path: Seq<char>) -> Seq<char>;

/// Calls `axfs_vfs::path::canonicalize`. The result is a function of the
/// path alone; the contract gives it its name and says nothing more. The
/// outside function cuts its buffer at a byte position, which fails inside
/// a character of several bytes: the contract admits ASCII paths only.
#[verifier::external_body]
fn canonicalize(path: &str) -> (canonical: String)
    requires
        vstd::utf8::is_ascii_chars(path@),
    ensures
        canonical@ == canonical_path(path@),
{
    axfs_vfs::path::canonicalize(path)
}

/// `c` is white space.
pub open spec fn is_whitespace(c: char) -> bool {
    let u = c as u32;
    ||| 0x09 <= u <= 0x0d
    ||| u == 0x20
    ||| u == 0x85
    ||| u == 0xa0
    ||| u == 0x1680
    ||| 0x2000 <= u <= 0x200a
    ||| u == 0x2028
    ||| u == 0x2029
    ||| u == 0x202f
    ||| u == 0x205f
    ||| u == 0x3000
}

/// `s` is empty or made of white space.
pub open spec fn is_blank(s: Seq<char>) -> bool {
    forall|i: int| 0 <= i < s.len() ==> is_whitespace(s[i])
}

/// The first position at or after `i` that does not hold a slash.
pub open spec fn skip_slashes(s: Seq<char>, i: int) -> int
    decreases s.len() - i,
{
    if 0 <= i < s.len() && s[i] == '/' {
        skip_slashes(s, i + 1)
    } else {
        i
    }
}

/// The end of `s` without the slashes that end it, but not before `start`.
pub open spec fn drop_slashes(s: Seq<char>, start: int, j: int) -> int
    decreases j,
{
    if 0 <= start < j <= s.len() && s[j - 1] == '/' {
        drop_slashes(s, start, j - 1)
    } else {
        j
    }
}

/// `s` without the slashes at its ends.
pub open spec fn trim_slashes(s: Seq<char>) -> Seq<char> {
    let start = skip_slashes(s, 0);
    s.subrange(start, drop_slashes(s, start, s.len() as int))
}

/// `s` begins with `./`.
pub open spec fn has_dot_slash(s: Seq<char>) -> bool {
    s.len() >= 2 && s[0] == '.' && s[1] == '/'
}

/// What is cut into segments: `s` without a leading `./` where it has
/// one, `s` without the slashes at its ends where it has not.
pub open spec fn stripped(s: Seq<char>) -> Seq<char> {
    if has_dot_slash(s) {
        s.subrange(2, s.len() as int)
    } else {
        trim_slashes(s)
    }
}

/// The first position at or after `i` that holds a slash; the length of
/// `s` where there is none.
pub open spec fn next_slash(s: Seq<char>, i: int) -> int
    decreases s.len() - i,
{
    if 0 <= i < s.len() && s[i] != '/' {
        next_slash(s, i + 1)
    } else if i < 0 {
        i
    } else if i >= s.len() {
        s.len() as int
    } else {
        i
    }
}

/// The pieces of `s` from `i` on that the slashes separate. There is always
/// at least one piece; a piece is empty where two slashes meet and where a
/// slash begins or ends `s`.
pub open spec fn split_from(s: Seq<char>, i: int) -> Seq<Seq<char>>
    decreases s.len() - i,
{
    if i < 0 || i > s.len() {
        Seq::empty()
    } else {
        let j = next_slash(s, i);
        if j >= s.len() {
            seq![s.subrange(i, s.len() as int)]
        } else if j < i {
            Seq::empty()
        } else {
            seq![s.subrange(i, j)] + split_from(s, j + 1)
        }
    }
}

/// The segments of a path in canonical form.
pub open spec fn components_of(canonical: Seq<char>) -> Seq<Seq<char>> {
    split_from(stripped(canonical), 0)
}

/// The segments of a path.
pub open spec fn spec_path_components(path: Seq<char>) -> Seq<Seq<char>> {
    if is_blank(path) {
        Seq::empty()
    } else if vstd::utf8::is_ascii_chars(path) {
        components_of(canonical_path(path))
    } else {
        components_of(path)
    }
}

/// The characters of the strings of `v`.
pub open spec fn views(v: Seq<String>) -> Seq<Seq<char>> {
    Seq::new(v.len(), |i: int| v[i]@)
}

/// The next slash is where a slash is and no slash is before.
proof fn lemma_next_slash(s: Seq<char>, i: int, j: int)
    requires
        0 <= i <= j <= s.len(),
        forall|k: int| i <= k < j ==> s[k] != '/',
        j < s.len() ==> s[j] == '/',
    ensures
        next_slash(s, i) == j,
    decreases j - i,
{
    if i < j {
        lemma_next_slash(s, i + 1, j);
    }
}

/// Tells whether `c` is white space.
pub fn char_is_whitespace(c: char) -> (r: bool)
    ensures
        r == is_whitespace(c),
{
    let u = c as u32;
    (0x09 <= u && u <= 0x0d) || u == 0x20 || u == 0x85 || u == 0xa0 || u == 0x1680 || (0x2000 <= u
        && u <= 0x200a) || u == 0x2028 || u == 0x2029 || u == 0x202f || u == 0x205f || u == 0x3000
}

/// Tells whether `s` is empty or made of white space.
pub fn str_is_blank(s: &str) -> (r: bool)
    ensures
        r == is_blank(s@),
{
    let n = s.unicode_len();
    let mut i: usize = 0;
    while i < n
        invariant
            i <= n,
            n == s@.len(),
            forall|k: int| 0 <= k < i ==> is_whitespace(s@[k]),
        decreases n - i,
    {
        if !char_is_whitespace(s.get_char(i)) {
            return false;
        }
        i += 1;
    }
    true
}

/// Cuts a path in canonical form into its segments.
pub fn split_components(canonical: &str) -> (components: Vec<String>)
    ensures
        views(components@) == components_of(canonical@),
{
    let n = canonical.unicode_len();
    // what to cut: from `start` to `end`
    let mut start: usize = 0;
    let mut end: usize = n;
    if n >= 2 && canonical.get_char(0) == '.' && canonical.get_char(1) == '/' {
        start = 2;
    } else {
        while start < n && canonical.get_char(start) == '/'
            invariant
                start <= n,
                n == canonical@.len(),
                skip_slashes(canonical@, start as int) == skip_slashes(canonical@, 0),
            decreases n - start,
        {
            start += 1;
        }
        while end > start && canonical.get_char(end - 1) == '/'
            invariant
                start <= end <= n,
                n == canonical@.len(),
                drop_slashes(canonical@, start as int, end as int) == drop_slashes(
                    canonical@,
                    start as int,
                    n as int,
                ),
            decreases end,
        {
            end -= 1;
        }
    }
    let text = canonical.substring_char(start, end);
    assert(text@ == stripped(canonical@));
    let ghost s = text@;
    let len = end - start;
    let mut components: Vec<String> = Vec::new();
    let mut from: usize = 0;
    let mut k: usize = 0;
    while k < len
        invariant
            from <= k <= len,
            len == s.len(),
            s == text@,
            forall|j: int| from <= j < k ==> s[j] != '/',
            views(components@) + split_from(s, from as int) == split_from(s, 0),
        decreases len - k,
    {
        if text.get_char(k) == '/' {
            let piece = text.substring_char(from, k).to_owned();
            proof {
                lemma_next_slash(s, from as int, k as int);
                let before = views(components@);
                assert(views(components@.push(piece)) =~= before + seq![s.subrange(
                    from as int,
                    k as int,
                )]);
                assert(before + (seq![s.subrange(from as int, k as int)] + split_from(s, k + 1))
                    =~= (before + seq![s.subrange(from as int, k as int)]) + split_from(s, k + 1));
            }
            components.push(piece);
            from = k + 1;
        }
        k += 1;
    }
    let piece = text.substring_char(from, len).to_owned();
    proof {
        lemma_next_slash(s, from as int, len as int);
        let before = views(components@);
        assert(views(components@.push(piece)) =~= before + seq![s.subrange(
            from as int,
            len as int,
        )]);
    }
    components.push(piece);
    components
}

/// Cuts a path into its segments. A blank path has none; a path with
/// characters outside ASCII is not brought to its canonical form first.
pub fn path_components(path: &str) -> (components: Vec<String>)
    ensures
        views(components@) == spec_path_components(path@),
{
    if str_is_blank(path) {
        let components: Vec<String> = Vec::new();
        assert(views(components@) =~= Seq::<Seq<char>>::empty());
        return components;
    }
    if path.is_ascii() {
        let canonical = canonicalize(path);
        split_components(canonical.as_str())
    } else {
        split_components(path)
    }
}

} // verus!
