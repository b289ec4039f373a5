//! Character-level primitives of the search engine: substring containment,
//! line splitting, string comparison and case folding, modelled over
//! character sequences.

use vstd::prelude::*;

verus! {

/// `needle` occurs as a contiguous run somewhere in `hay`.
pub open spec fn spec_contains(hay: Seq<char>, needle: Seq<char>) -> bool {
    exists|i: int|
        0 <= i <= hay.len() - needle.len() && #[trigger] hay.subrange(i, i + needle.len())
            == needle
}

/// Index of the first newline in `s`, or `s.len()` when there is none.
pub open spec fn first_newline(s: Seq<char>) -> int
    decreases s.len(),
{
    if s.len() == 0 {
        0
    } else if s[0] == '\n' {
        0
    } else {
        1 + first_newline(s.skip(1))
    }
}

pub proof fn lemma_first_newline(s: Seq<char>)
    ensures
        0 <= first_newline(s) <= s.len(),
        first_newline(s) < s.len() ==> s[first_newline(s)] == '\n',
        forall|j: int| 0 <= j < first_newline(s) ==> s[j] != '\n',
    decreases s.len(),
{
    if s.len() > 0 && s[0] != '\n' {
        lemma_first_newline(s.skip(1));
        assert forall|j: int| 0 <= j < first_newline(s) implies s[j] != '\n' by {
            if j > 0 {
                assert(s.skip(1)[j - 1] == s[j]);
            }
        }
    }
}

pub proof fn lemma_first_newline_at(s: Seq<char>, k: int)
    requires
        0 <= k <= s.len(),
        forall|j: int| 0 <= j < k ==> s[j] != '\n',
        k < s.len() ==> s[k] == '\n',
        k == s.len() ==> (forall|j: int| 0 <= j < s.len() ==> s[j] != '\n'),
    ensures
        first_newline(s) == k,
    decreases s.len(),
{
    if k > 0 {
        assert(s[0] != '\n');
        let t = s.skip(1);
        assert forall|j: int| 0 <= j < k - 1 implies t[j] != '\n' by {
            assert(s[j + 1] != '\n');
        }
        if k == s.len() {
            assert forall|j: int| 0 <= j < t.len() implies t[j] != '\n' by {
                assert(s[j + 1] != '\n');
            }
        }
        lemma_first_newline_at(t, k - 1);
    }
}

/// A line with one trailing carriage return removed, if present.
pub open spec fn strip_cr(line: Seq<char>) -> Seq<char> {
    if line.len() > 0 && line[line.len() - 1] == '\r' {
        line.drop_last()
    } else {
        line
    }
}

/// The lines of `s`: the pieces separated by `'\n'`, each piece before a
/// newline with one trailing `'\r'` removed; a final newline does not
/// produce an extra empty line.
pub open spec fn spec_lines(s: Seq<char>) -> Seq<Seq<char>>
    decreases s.len(),
    via spec_lines_decreases
{
    if s.len() == 0 {
        Seq::empty()
    } else {
        let k = first_newline(s);
        if k == s.len() {
            seq![s]
        } else {
            seq![strip_cr(s.subrange(0, k))] + spec_lines(s.subrange(k + 1, s.len() as int))
        }
    }
}

#[via_fn]
proof fn spec_lines_decreases(s: Seq<char>) {
    lemma_first_newline(s);
}

/// Pushing onto a vector of string slices pushes the slice's view onto the
/// vector's deep view.
pub(crate) proof fn lemma_push_deep_view<'a>(v1: Vec<&'a str>, v2: Vec<&'a str>, x: &'a str)
    requires
        v2@ == v1@.push(x),
    ensures
        v2.deep_view() == v1.deep_view().push(x@),
{
    assert(v2.deep_view() =~= v1.deep_view().push(x@));
}

/// The lines of `content`, in order, as borrowed slices.
pub fn split_lines<'a>(content: &'a str) -> (r: Vec<&'a str>)
    ensures
        r.deep_view() == spec_lines(content@),
{
    let n = content.unicode_len();
    let mut r: Vec<&'a str> = Vec::new();
    let mut start: usize = 0;
    let mut i: usize = 0;
    proof {
        assert(content@.subrange(0, n as int) =~= content@);
        assert(r.deep_view() =~= Seq::<Seq<char>>::empty());
        assert(Seq::<Seq<char>>::empty() + spec_lines(content@) =~= spec_lines(content@));
    }
    while i < n
        invariant
            n == content@.len(),
            start <= i <= n,
            spec_lines(content@) == r.deep_view() + spec_lines(
                content@.subrange(start as int, n as int),
            ),
            forall|j: int| start <= j < i ==> content@[j] != '\n',
        decreases n - i,
    {
        if content.get_char(i) == '\n' {
            let stripped_end = if i > start && content.get_char(i - 1) == '\r' {
                i - 1
            } else {
                i
            };
            let line = content.substring_char(start, stripped_end);
            let ghost prev = r;
            r.push(line);
            proof {
                let c = content@;
                let rest = c.subrange(start as int, n as int);
                let k = i - start;
                assert forall|j: int| 0 <= j < k implies rest[j] != '\n' by {
                    assert(c[start + j] != '\n');
                }
                assert(rest[k as int] == c[i as int]);
                lemma_first_newline_at(rest, k as int);
                let head = rest.subrange(0, k as int);
                assert(head =~= c.subrange(start as int, i as int));
                if i > start && c[i - 1] == '\r' {
                    assert(head[head.len() - 1] == c[i - 1]);
                    assert(strip_cr(head) =~= c.subrange(start as int, i - 1));
                } else {
                    if head.len() > 0 {
                        assert(head[head.len() - 1] == c[i - 1]);
                    }
                    assert(strip_cr(head) =~= c.subrange(start as int, i as int));
                }
                assert(strip_cr(head) == line@);
                assert(rest.subrange(k + 1, rest.len() as int) =~= c.subrange(i + 1, n as int));
                lemma_push_deep_view(prev, r, line);
                assert(r.deep_view() + spec_lines(c.subrange(i + 1, n as int))
                    =~= prev.deep_view() + (seq![line@] + spec_lines(
                    c.subrange(i + 1, n as int),
                )));
            }
            start = i + 1;
        }
        i = i + 1;
    }
    if start < n {
        let line = content.substring_char(start, n);
        let ghost prev = r;
        r.push(line);
        proof {
            let c = content@;
            let rest = c.subrange(start as int, n as int);
            assert forall|j: int| 0 <= j < rest.len() implies rest[j] != '\n' by {
                assert(c[start + j] != '\n');
            }
            lemma_first_newline_at(rest, rest.len() as int);
            assert(line@ == rest);
            lemma_push_deep_view(prev, r, line);
            assert(prev.deep_view() + spec_lines(rest) =~= r.deep_view());
        }
    } else {
        proof {
            let c = content@;
            assert(c.subrange(start as int, n as int).len() == 0);
            assert(r.deep_view() + spec_lines(c.subrange(start as int, n as int))
                =~= r.deep_view());
        }
    }
    r
}

/// The characters of `s`, collected into a vector.
pub fn chars_of(s: &str) -> (v: Vec<char>)
    ensures
        v@ == s@,
{
    let n = s.unicode_len();
    let mut v: Vec<char> = Vec::new();
    let mut i: usize = 0;
    while i < n
        invariant
            n == s@.len(),
            i <= n,
            v@ == s@.subrange(0, i as int),
        decreases n - i,
    {
        v.push(s.get_char(i));
        proof {
            assert(v@ =~= s@.subrange(0, i + 1));
        }
        i = i + 1;
    }
    proof {
        assert(s@.subrange(0, n as int) =~= s@);
    }
    v
}

/// Whether `needle` occurs in `hay` starting exactly at index `i`.
fn match_at(hay: &Vec<char>, needle: &Vec<char>, i: usize) -> (r: bool)
    requires
        i + needle@.len() <= hay@.len(),
    ensures
        r == (hay@.subrange(i as int, i + needle@.len()) == needle@),
{
    let nl = needle.len();
    let hl = hay.len();
    let mut j: usize = 0;
    while j < nl
        invariant
            nl == needle@.len(),
            hl == hay@.len(),
            i + nl <= hl,
            j <= nl,
            forall|t: int| 0 <= t < j ==> hay@[i + t] == needle@[t],
        decreases nl - j,
    {
        if hay[i + j] != needle[j] {
            proof {
                assert(hay@.subrange(i as int, i + needle@.len())[j as int] == hay@[i + j]);
            }
            return false;
        }
        j = j + 1;
    }
    proof {
        assert(hay@.subrange(i as int, i + needle@.len()) =~= needle@);
    }
    true
}

/// Whether `needle` occurs contiguously anywhere in `hay`.
pub fn contains_chars(hay: &Vec<char>, needle: &Vec<char>) -> (r: bool)
    ensures
        r == spec_contains(hay@, needle@),
{
    let nl = needle.len();
    let hl = hay.len();
    if nl > hl {
        return false;
    }
    if nl == 0 {
        proof {
            assert(hay@.subrange(0, 0 + needle@.len() as int) =~= needle@);
            assert(spec_contains(hay@, needle@));
        }
        return true;
    }
    let last = hl - nl;
    let mut i: usize = 0;
    while i <= last
        invariant
            nl == needle@.len(),
            hl == hay@.len(),
            1 <= nl <= hl,
            last == hl - nl,
            i <= last + 1,
            forall|k: int|
                0 <= k < i ==> #[trigger] hay@.subrange(k, k + needle@.len()) != needle@,
        decreases last + 1 - i,
    {
        if match_at(hay, needle, i) {
            assert(spec_contains(hay@, needle@));
            return true;
        }
        i = i + 1;
    }
    false
}

/// Whether two strings consist of the same characters.
pub fn str_eq(a: &str, b: &str) -> (r: bool)
    ensures
        r == (a@ == b@),
{
    let n = a.unicode_len();
    if n != b.unicode_len() {
        return false;
    }
    let mut i: usize = 0;
    while i < n
        invariant
            n == a@.len(),
            n == b@.len(),
            i <= n,
            forall|k: int| 0 <= k < i ==> a@[k] == b@[k],
        decreases n - i,
    {
        if a.get_char(i) != b.get_char(i) {
            return false;
        }
        i = i + 1;
    }
    proof {
        assert(a@ =~= b@);
    }
    true
}

/// The lowercase form of a single character, as full case folding defines it
/// (possibly more than one character long).
pub uninterp spec fn lower_char(c: char) -> Seq<char>;

/// Relies on char::to_lowercase: the lowercase form of a character depends
/// on that character alone.
#[verifier::external_body]
fn char_to_lowercase(c: char) -> (r: Vec<char>)
    ensures
        r@ == lower_char(c),
{
    c.to_lowercase().collect()
}

/// The full case folding of `s`: each character replaced by its lowercase
/// form, in order.
pub open spec fn fold_lower(s: Seq<char>) -> Seq<char>
    decreases s.len(),
{
    if s.len() == 0 {
        Seq::empty()
    } else {
        lower_char(s[0]) + fold_lower(s.skip(1))
    }
}

/// Case folding distributes over concatenation.
pub proof fn lemma_fold_lower_concat(a: Seq<char>, b: Seq<char>)
    ensures
        fold_lower(a + b) == fold_lower(a) + fold_lower(b),
    decreases a.len(),
{
    if a.len() == 0 {
        assert(a + b =~= b);
        assert(fold_lower(a) + fold_lower(b) =~= fold_lower(b));
    } else {
        assert((a + b).skip(1) =~= a.skip(1) + b);
        lemma_fold_lower_concat(a.skip(1), b);
        assert((a + b)[0] == a[0]);
        assert(lower_char(a[0]) + (fold_lower(a.skip(1)) + fold_lower(b)) =~= (lower_char(a[0])
            + fold_lower(a.skip(1))) + fold_lower(b));
    }
}

/// A substring's case folding occurs in the case folding of the whole.
pub proof fn lemma_contains_fold_lower(hay: Seq<char>, needle: Seq<char>)
    requires
        spec_contains(hay, needle),
    ensures
        spec_contains(fold_lower(hay), fold_lower(needle)),
{
    let i = choose|i: int|
        0 <= i <= hay.len() - needle.len() && #[trigger] hay.subrange(i, i + needle.len())
            == needle;
    let pre = hay.subrange(0, i);
    let post = hay.subrange(i + needle.len(), hay.len() as int);
    assert(hay =~= (pre + needle) + post);
    lemma_fold_lower_concat(pre + needle, post);
    lemma_fold_lower_concat(pre, needle);
    let j = fold_lower(pre).len() as int;
    assert(fold_lower(hay).subrange(j, j + fold_lower(needle).len()) =~= fold_lower(needle));
    assert(spec_contains(fold_lower(hay), fold_lower(needle)));
}

/// The case folding of `s`, computed character by character.
pub fn lower_chars(s: &Vec<char>) -> (r: Vec<char>)
    ensures
        r@ == fold_lower(s@),
{
    let n = s.len();
    let mut r: Vec<char> = Vec::new();
    let mut i: usize = 0;
    proof {
        assert(s@.skip(0) =~= s@);
        assert(r@ + fold_lower(s@) =~= fold_lower(s@));
    }
    while i < n
        invariant
            n == s@.len(),
            i <= n,
            r@ + fold_lower(s@.skip(i as int)) == fold_lower(s@),
        decreases n - i,
    {
        let ghost prev = r@;
        let mut low = char_to_lowercase(s[i]);
        r.append(&mut low);
        proof {
            assert(s@.skip(i as int)[0] == s@[i as int]);
            assert(s@.skip(i as int).skip(1) =~= s@.skip(i + 1));
            assert(r@ + fold_lower(s@.skip(i + 1)) =~= prev + (lower_char(s@[i as int])
                + fold_lower(s@.skip(i + 1))));
        }
        i = i + 1;
    }
    proof {
        assert(s@.skip(n as int) =~= Seq::<char>::empty());
        assert(r@ + fold_lower(Seq::<char>::empty()) =~= r@);
    }
    r
}

} // verus!
