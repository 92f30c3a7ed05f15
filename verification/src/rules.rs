//! Block rules, domain canonicalization, and the friction cache that the
//! companion process queries.

use vstd::prelude::*;
use crate::text::{
    chars_vec, is_space_char, lemma_uppercase_free_subrange, string_of, trim_end_spec, trim_spec,
    trim_start_spec, uppercase_free,
};

verus! {

/// How a rule is enforced: a hard rule is written to the hosts file, the
/// friction variants live only in the cache served to the companion process.
#[derive(Clone, Copy, Debug, PartialEq, Eq, Structural)]
pub enum Mode {
    Hard,
    Friction,
    FrictionWait,
    FrictionTyping,
}

impl Mode {
    /// Every mode but the hard one is a friction variant.
    pub open spec fn is_friction_spec(self) -> bool {
        self != Mode::Hard
    }

    pub fn is_friction(&self) -> (b: bool)
        ensures
            b == self.is_friction_spec(),
    {
        !matches!(self, Mode::Hard)
    }
}

/// One caller-supplied rule: a domain, whether it is in force, and its mode.
#[derive(Clone, Debug)]
pub struct BlockRule {
    pub domain: String,
    pub is_active: bool,
    pub mode: Mode,
}

/// The projection of an active friction rule kept for the companion process.
#[derive(Clone, Debug)]
pub struct CachedRule {
    pub domain: String,
    pub mode: Mode,
}

/// The mode assumed where a rule names none.
pub fn default_mode() -> (r: String)
    ensures
        r@ == "hard"@,
{
    "hard".to_owned()
}

/// What `str::to_lowercase` returns: a pure function of the characters alone.
pub uninterp spec fn lower_of(s: Seq<char>) -> Seq<char>;

/// Relies on `str::to_lowercase`: the result is the Unicode lowercase of the
/// input, a function of its characters alone; lowercasing maps every ASCII
/// capital away and never produces one.
#[verifier::external_body]
pub(crate) fn to_lower(s: &str) -> (r: String)
    ensures
        r@ == lower_of(s@),
        uppercase_free(r@),
{
    s.to_lowercase()
}

/// The characters of the `www.` prefix.
proof fn canon_prefix_ok()
    ensures
        "www."@ =~= seq!['w', 'w', 'w', '.'],
{
    reveal_strlit("www.");
}

/// `s` with one leading `www.` removed, if it has one.
pub open spec fn strip_www(s: Seq<char>) -> Seq<char> {
    if s.len() >= 4 && s.subrange(0, 4) == "www."@ {
        s.subrange(4, s.len() as int)
    } else {
        s
    }
}

/// The canonical form of a domain: lower-cased, trimmed, and with one leading
/// `www.` stripped.
pub open spec fn canon_spec(d: Seq<char>) -> Seq<char> {
    strip_www(trim_spec(lower_of(d)))
}

/// Canonical domain as a character vector.
pub(crate) fn canonical_chars(domain: &str) -> (v: Vec<char>)
    ensures
        v@ == canon_spec(domain@),
        uppercase_free(v@),
{
    let low = to_lower(domain);
    let lv = chars_vec(low.as_str());
    let n = lv.len();
    // trim the start
    let mut a: usize = 0;
    proof {
        assert(lv@.subrange(0, n as int) =~= lv@);
    }
    while a < n && is_space_char(lv[a])
        invariant
            a <= n,
            n == lv@.len(),
            trim_start_spec(lv@) == trim_start_spec(lv@.subrange(a as int, n as int)),
        decreases n - a,
    {
        proof {
            let cur = lv@.subrange(a as int, n as int);
            assert(cur.first() == lv@[a as int]);
            assert(cur.drop_first() =~= lv@.subrange(a + 1 as int, n as int));
        }
        a = a + 1;
    }
    let ghost st = lv@.subrange(a as int, n as int);
    proof {
        if a < n {
            assert(st.first() == lv@[a as int]);
        }
        assert(trim_start_spec(lv@) == st);
    }
    // trim the end
    let mut e: usize = n;
    while e > a && is_space_char(lv[e - 1])
        invariant
            a <= e <= n,
            n == lv@.len(),
            st == lv@.subrange(a as int, n as int),
            trim_end_spec(st) == trim_end_spec(lv@.subrange(a as int, e as int)),
        decreases e,
    {
        proof {
            let cur = lv@.subrange(a as int, e as int);
            assert(cur.last() == lv@[e - 1 as int]);
            assert(cur.drop_last() =~= lv@.subrange(a as int, e - 1 as int));
        }
        e = e - 1;
    }
    let ghost tr = lv@.subrange(a as int, e as int);
    proof {
        if e > a {
            assert(tr.last() == lv@[e - 1 as int]);
        } else {
            assert(tr =~= Seq::<char>::empty());
        }
        assert(trim_spec(lv@) == tr);
    }
    // strip one leading `www.`
    let start: usize = if e - a >= 4 && lv[a] == 'w' && lv[a + 1] == 'w' && lv[a + 2] == 'w'
        && lv[a + 3] == '.' {
        proof {
            canon_prefix_ok();
            assert(tr.subrange(0, 4) =~= seq!['w', 'w', 'w', '.']);
        }
        a + 4
    } else {
        proof {
            canon_prefix_ok();
            if tr.len() >= 4 && tr.subrange(0, 4) == "www."@ {
                assert(tr.subrange(0, 4)[0] == lv@[a as int]);
                assert(tr.subrange(0, 4)[1] == lv@[a + 1 as int]);
                assert(tr.subrange(0, 4)[2] == lv@[a + 2 as int]);
                assert(tr.subrange(0, 4)[3] == lv@[a + 3 as int]);
            }
        }
        a
    };
    let mut v: Vec<char> = Vec::new();
    let mut k: usize = start;
    while k < e
        invariant
            start <= k <= e <= n,
            n == lv@.len(),
            v@ == lv@.subrange(start as int, k as int),
        decreases e - k,
    {
        let c = lv[k];
        v.push(c);
        proof {
            assert(v@ =~= lv@.subrange(start as int, k + 1 as int));
        }
        k = k + 1;
    }
    proof {
        assert(v@ == lv@.subrange(start as int, e as int));
        if start == a + 4 {
            assert(v@ =~= tr.subrange(4, tr.len() as int));
        } else {
            assert(v@ =~= tr);
        }
        assert(v@ == canon_spec(domain@));
        lemma_uppercase_free_subrange(lv@, start as int, e as int);
    }
    v
}

/// The canonical form of a caller-supplied domain.
pub fn canonicalize_domain(domain: &str) -> (r: String)
    ensures
        r@ == canon_spec(domain@),
        uppercase_free(r@),
{
    let v = canonical_chars(domain);
    string_of(&v)
}

/// The friction cache that a rule set induces: the canonical domain and mode
/// of every active friction rule, in rule order.
pub open spec fn cache_spec(rules: Seq<BlockRule>) -> Seq<(Seq<char>, Mode)>
    decreases rules.len(),
{
    if rules.len() == 0 {
        Seq::empty()
    } else {
        (if rules[0].is_active && rules[0].mode.is_friction_spec() {
            seq![(canon_spec(rules[0].domain@), rules[0].mode)]
        } else {
            Seq::empty()
        }) + cache_spec(rules.drop_first())
    }
}

/// The cache of a rule list grows at the back as the list does.
pub proof fn lemma_cache_spec_snoc(rules: Seq<BlockRule>, r: BlockRule)
    ensures
        cache_spec(rules.push(r)) == cache_spec(rules) + (if r.is_active
            && r.mode.is_friction_spec() {
            seq![(canon_spec(r.domain@), r.mode)]
        } else {
            Seq::<(Seq<char>, Mode)>::empty()
        }),
    decreases rules.len(),
{
    let whole = rules.push(r);
    if rules.len() == 0 {
        assert(whole[0] == r);
        assert(whole.drop_first() =~= Seq::<BlockRule>::empty());
        assert(cache_spec(whole.drop_first()) == Seq::<(Seq<char>, Mode)>::empty());
        assert(cache_spec(whole) =~= cache_spec(rules) + (if r.is_active
            && r.mode.is_friction_spec() {
            seq![(canon_spec(r.domain@), r.mode)]
        } else {
            Seq::<(Seq<char>, Mode)>::empty()
        }));
    } else {
        assert(whole[0] == rules[0]);
        assert(whole.drop_first() =~= rules.drop_first().push(r));
        lemma_cache_spec_snoc(rules.drop_first(), r);
        assert(cache_spec(whole) == (if whole[0].is_active && whole[0].mode.is_friction_spec() {
            seq![(canon_spec(whole[0].domain@), whole[0].mode)]
        } else {
            Seq::<(Seq<char>, Mode)>::empty()
        }) + cache_spec(whole.drop_first()));
        assert(cache_spec(whole) =~= cache_spec(rules) + (if r.is_active
            && r.mode.is_friction_spec() {
            seq![(canon_spec(r.domain@), r.mode)]
        } else {
            Seq::<(Seq<char>, Mode)>::empty()
        }));
    }
}

/// The cached rules match the cache the rule set induces, element by element.
pub open spec fn cache_matches(cache: Seq<CachedRule>, rules: Seq<BlockRule>) -> bool {
    &&& cache.len() == cache_spec(rules).len()
    &&& forall|i: int|
        0 <= i < cache.len() ==> (#[trigger] cache[i]).domain@ == cache_spec(rules)[i].0
            && cache[i].mode == cache_spec(rules)[i].1
}

/// Rebuilds the friction cache from a rule set: exactly the active friction
/// rules survive, canonicalized, in order.
pub fn build_friction_cache(rules: &Vec<BlockRule>) -> (cache: Vec<CachedRule>)
    ensures
        cache_matches(cache@, rules@),
{
    let mut cache: Vec<CachedRule> = Vec::new();
    let mut i: usize = 0;
    proof {
        assert(rules@.subrange(0, 0) =~= Seq::<BlockRule>::empty());
    }
    while i < rules.len()
        invariant
            i <= rules@.len(),
            cache_matches(cache@, rules@.subrange(0, i as int)),
        decreases rules@.len() - i,
    {
        let r = &rules[i];
        proof {
            assert(rules@.subrange(0, i + 1 as int) =~= rules@.subrange(0, i as int).push(
                rules@[i as int]));
            lemma_cache_spec_snoc(rules@.subrange(0, i as int), rules@[i as int]);
        }
        if r.is_active && r.mode.is_friction() {
            let entry = CachedRule { domain: canonicalize_domain(r.domain.as_str()), mode: r.mode };
            cache.push(entry);
        }
        i = i + 1;
    }
    proof {
        assert(rules@.subrange(0, rules@.len() as int) =~= rules@);
    }
    cache
}

/// Canonicalization collapses spellings: domains with the same lowercase form
/// have the same canonical form.
pub proof fn lemma_canon_collapse(a: Seq<char>, b: Seq<char>)
    requires
        lower_of(a) == lower_of(b),
    ensures
        canon_spec(a) == canon_spec(b),
{
}

/// The `www.` prefix is stripped exactly once: stripping a sequence that
/// begins with it yields the rest unchanged, whatever the rest begins with.
pub proof fn lemma_strip_www_once(t: Seq<char>)
    ensures
        strip_www("www."@ + t) == t,
{
    canon_prefix_ok();
    let w = "www."@ + t;
    assert(w.subrange(0, 4) =~= "www."@);
    assert(w.subrange(4, w.len() as int) =~= t);
}


} // verus!
