//! Character-level utilities: whitespace trimming, substring search, and the
//! absence of ASCII capitals that keeps generated lines free of the sentinels.

use vstd::prelude::*;
use vstd::string::StrSliceExecFns;

verus! {

/// The white-space characters that trimming removes (the Unicode
/// `White_Space` set).
pub open spec fn is_space(c: char) -> bool {
    ||| c == ' '
    ||| c == '\t'
    ||| c == '\n'
    ||| c == '\r'
    ||| c as u32 == 0x0b
    ||| c as u32 == 0x0c
    ||| c as u32 == 0x85
    ||| c as u32 == 0xa0
    ||| c as u32 == 0x1680
    ||| (0x2000 <= c as u32 && c as u32 <= 0x200a)
    ||| c as u32 == 0x2028
    ||| c as u32 == 0x2029
    ||| c as u32 == 0x202f
    ||| c as u32 == 0x205f
    ||| c as u32 == 0x3000
}

pub fn is_space_char(c: char) -> (b: bool)
    ensures
        b == is_space(c),
{
    let u = c as u32;
    u == 0x20 || u == 0x09 || u == 0x0a || u == 0x0d || u == 0x0b || u == 0x0c || u == 0x85
        || u == 0xa0 || u == 0x1680 || (0x2000 <= u && u <= 0x200a) || u == 0x2028 || u == 0x2029
        || u == 0x202f || u == 0x205f || u == 0x3000
}

/// `needle` occurs somewhere inside `hay`.
pub open spec fn contains_sub(hay: Seq<char>, needle: Seq<char>) -> bool {
    exists|i: int|
        0 <= i && i + needle.len() <= hay.len() && #[trigger] hay.subrange(i, i + needle.len())
            == needle
}

/// `s` holds no ASCII capital letter.
pub open spec fn uppercase_free(s: Seq<char>) -> bool {
    forall|i: int| 0 <= i < s.len() ==> !(65 <= #[trigger] s[i] as u32 && s[i] as u32 <= 90)
}

/// The characters of `s`, in order, as a vector.
pub fn chars_vec(s: &str) -> (v: Vec<char>)
    ensures
        v@ == s@,
{
    let n = s.unicode_len();
    let mut v: Vec<char> = Vec::new();
    let mut i: usize = 0;
    while i < n
        invariant
            n == s@.len(),
            i <= n,
            v@ == s@.subrange(0, i as int),
        decreases n - i,
    {
        let c = s.get_char(i);
        v.push(c);
        proof {
            assert(v@ =~= s@.subrange(0, i + 1 as int));
        }
        i = i + 1;
    }
    proof {
        assert(s@.subrange(0, n as int) =~= s@);
    }
    v
}

/// Relies on `Iterator::collect` for `String`: the collected string holds
/// exactly the characters of the vector, in order.
#[verifier::external_body]
pub(crate) fn string_of(v: &Vec<char>) -> (r: String)
    ensures
        r@ == v@,
{
    v.iter().collect()
}

/// Substring search, the executable side of `contains_sub`.
pub fn contains_chars(hay: &Vec<char>, needle: &Vec<char>) -> (b: bool)
    ensures
        b == contains_sub(hay@, needle@),
{
    let hl = hay.len();
    let nl = needle.len();
    if nl > hl {
        return false;
    }
    if nl == 0 {
        proof {
            assert(hay@.subrange(0, 0 + needle@.len() as int) =~= needle@);
        }
        return true;
    }
    let mut i: usize = 0;
    while i <= hl - nl
        invariant
            hl == hay@.len(),
            nl == needle@.len(),
            nl <= hl,
            i <= hl - nl + 1,
            0 < nl <= hl,
            forall|k: int| 0 <= k < i ==> #[trigger] hay@.subrange(k, k + nl as int) != needle@,
        decreases hl - nl - i + 1,
    {
        let mut j: usize = 0;
        let mut all_eq = true;
        while j < nl
            invariant
                hl == hay@.len(),
                nl == needle@.len(),
                i + nl <= hl,
                j <= nl,
                all_eq ==> forall|k: int| 0 <= k < j ==> hay@[i + k] == needle@[k],
                !all_eq ==> hay@.subrange(i as int, i + nl as int) != needle@,
            decreases nl - j,
        {
            if hay[i + j] != needle[j] {
                proof {
                    assert(hay@.subrange(i as int, i + nl as int)[j as int] == hay@[i + j]);
                }
                all_eq = false;
            }
            j = j + 1;
        }
        if all_eq {
            proof {
                assert(hay@.subrange(i as int, i + nl as int) =~= needle@);
            }
            return true;
        }
        i = i + 1;
    }
    proof {
        assert(forall|k: int|
            0 <= k && k + nl as int <= hl as int ==> #[trigger] hay@.subrange(k, k + nl as int)
                != needle@);
    }
    false
}

/// What is left of `s` after removing trailing white space.
pub open spec fn trim_end_spec(s: Seq<char>) -> Seq<char>
    decreases s.len(),
{
    if s.len() == 0 {
        s
    } else if is_space(s.last()) {
        trim_end_spec(s.drop_last())
    } else {
        s
    }
}

/// What is left of `s` after removing leading white space.
pub open spec fn trim_start_spec(s: Seq<char>) -> Seq<char>
    decreases s.len(),
{
    if s.len() == 0 {
        s
    } else if is_space(s.first()) {
        trim_start_spec(s.drop_first())
    } else {
        s
    }
}

/// What is left of `s` after removing white space at both ends.
pub open spec fn trim_spec(s: Seq<char>) -> Seq<char> {
    trim_end_spec(trim_start_spec(s))
}

/// The index where the trailing white space of `v` begins.
pub fn trim_end_index(v: &Vec<char>) -> (e: usize)
    ensures
        e <= v@.len(),
        trim_end_spec(v@) == v@.subrange(0, e as int),
{
    let mut e = v.len();
    proof {
        assert(v@.subrange(0, v@.len() as int) =~= v@);
    }
    while e > 0 && is_space_char(v[e - 1])
        invariant
            e <= v@.len(),
            trim_end_spec(v@) == trim_end_spec(v@.subrange(0, e as int)),
        decreases e,
    {
        proof {
            let cur = v@.subrange(0, e as int);
            assert(cur.drop_last() =~= v@.subrange(0, e - 1 as int));
        }
        e = e - 1;
    }
    proof {
        let cur = v@.subrange(0, e as int);
        if e == 0 {
            assert(trim_end_spec(cur) =~= cur);
        } else {
            assert(cur.last() == v@[e - 1 as int]);
        }
    }
    e
}

/// Trimming the end never leaves trailing white space behind.
pub proof fn lemma_trim_end_clean(s: Seq<char>)
    ensures
        trim_end_spec(s).len() > 0 ==> !is_space(trim_end_spec(s).last()),
    decreases s.len(),
{
    if s.len() > 0 && is_space(s.last()) {
        lemma_trim_end_clean(s.drop_last());
    }
}

/// Trimming the end twice is the same as trimming it once.
pub proof fn lemma_trim_end_idempotent(s: Seq<char>)
    ensures
        trim_end_spec(trim_end_spec(s)) == trim_end_spec(s),
{
    lemma_trim_end_clean(s);
}

/// How end-trimming acts on a concatenation: it either stays inside `b`, or
/// erases `b` wholesale and goes on inside `a`.
pub proof fn lemma_trim_end_concat(a: Seq<char>, b: Seq<char>)
    ensures
        trim_end_spec(a + b) == if trim_end_spec(b).len() > 0 {
            a + trim_end_spec(b)
        } else {
            trim_end_spec(a)
        },
    decreases b.len(),
{
    if b.len() == 0 {
        assert(a + b =~= a);
    } else if is_space(b.last()) {
        assert((a + b).last() == b.last());
        assert((a + b).drop_last() =~= a + b.drop_last());
        lemma_trim_end_concat(a, b.drop_last());
    } else {
        assert((a + b).last() == b.last());
    }
}

/// A substring of a prefix of `s` is a substring of `s`.
pub proof fn lemma_contains_prefix(s: Seq<char>, e: int, m: Seq<char>)
    requires
        0 <= e <= s.len(),
        contains_sub(s.subrange(0, e), m),
    ensures
        contains_sub(s, m),
{
    let p = s.subrange(0, e);
    let i = choose|i: int|
        0 <= i && i + m.len() <= p.len() && #[trigger] p.subrange(i, i + m.len()) == m;
    assert(s.subrange(i, i + m.len() as int) =~= p.subrange(i, i + m.len() as int));
}

/// Every character of `l` is white space.
pub open spec fn all_space(l: Seq<char>) -> bool {
    forall|j: int| 0 <= j < l.len() ==> is_space(#[trigger] l[j])
}

/// `l` ends with a carriage return.
pub open spec fn ends_cr(l: Seq<char>) -> bool {
    l.len() > 0 && l.last() == '\r'
}

/// Trimming a run of white space leaves nothing.
pub proof fn lemma_trim_end_all_space(s: Seq<char>)
    requires
        all_space(s),
    ensures
        trim_end_spec(s) =~= Seq::<char>::empty(),
    decreases s.len(),
{
    if s.len() > 0 {
        assert(is_space(s.last()));
        assert(all_space(s.drop_last()));
        lemma_trim_end_all_space(s.drop_last());
    }
}

/// Trimming a sequence with a non-space character leaves something.
pub proof fn lemma_trim_end_nonempty(s: Seq<char>)
    requires
        !all_space(s),
    ensures
        trim_end_spec(s).len() > 0,
    decreases s.len(),
{
    let j = choose|j: int| 0 <= j < s.len() && !is_space(s[j]);
    if is_space(s.last()) {
        assert(s.drop_last()[j] == s[j]);
        lemma_trim_end_nonempty(s.drop_last());
    }
}

/// The trimmed sequence is a prefix of the original.
pub proof fn lemma_trim_end_prefix(s: Seq<char>)
    ensures
        trim_end_spec(s).len() <= s.len(),
        trim_end_spec(s) == s.subrange(0, trim_end_spec(s).len() as int),
    decreases s.len(),
{
    if s.len() == 0 {
        assert(trim_end_spec(s) =~= s.subrange(0, trim_end_spec(s).len() as int));
    } else if is_space(s.last()) {
        lemma_trim_end_prefix(s.drop_last());
        assert(s.drop_last().subrange(0, trim_end_spec(s).len() as int) =~= s.subrange(
            0,
            trim_end_spec(s).len() as int,
        ));
    } else {
        assert(trim_end_spec(s) =~= s.subrange(0, trim_end_spec(s).len() as int));
    }
}

/// A concatenation of capital-free sequences is capital-free.
pub proof fn lemma_uppercase_free_concat(a: Seq<char>, b: Seq<char>)
    requires
        uppercase_free(a),
        uppercase_free(b),
    ensures
        uppercase_free(a + b),
{
    assert forall|i: int| 0 <= i < (a + b).len() implies !(65 <= #[trigger] (a + b)[i] as u32 && (a
        + b)[i] as u32 <= 90) by {
        if i < a.len() {
            assert((a + b)[i] == a[i]);
        } else {
            assert((a + b)[i] == b[i - a.len()]);
        }
    }
}

/// A subrange of a capital-free sequence is capital-free.
pub proof fn lemma_uppercase_free_subrange(s: Seq<char>, a: int, b: int)
    requires
        uppercase_free(s),
        0 <= a <= b <= s.len(),
    ensures
        uppercase_free(s.subrange(a, b)),
{
    assert forall|i: int| 0 <= i < b - a implies !(65 <= #[trigger] s.subrange(a, b)[i] as u32
        && s.subrange(a, b)[i] as u32 <= 90) by {
        assert(s.subrange(a, b)[i] == s[a + i]);
    }
}

/// Character-wise string equality.
pub fn str_eq(a: &str, b: &str) -> (r: bool)
    ensures
        r == (a@ == b@),
{
    let n = a.unicode_len();
    if n != b.unicode_len() {
        proof {
            assert(a@.len() != b@.len());
        }
        return false;
    }
    let mut i: usize = 0;
    while i < n
        invariant
            n == a@.len(),
            n == b@.len(),
            i <= n,
            forall|k: int| 0 <= k < i ==> a@[k] == b@[k],
        decreases n - i,
    {
        if a.get_char(i) != b.get_char(i) {
            return false;
        }
        i = i + 1;
    }
    proof {
        assert(a@ =~= b@);
    }
    true
}

} // verus!
