//! The rule reconciler: removes any prior managed block from the hosts-file
//! content and appends a freshly computed one holding the active hard rules.

use vstd::prelude::*;
use crate::rules::{cache_spec, canon_spec, canonical_chars, BlockRule, Mode};
use crate::text::{
    all_space, chars_vec, is_space, contains_chars, contains_sub, ends_cr, lemma_contains_prefix,
    lemma_trim_end_all_space, lemma_trim_end_clean, lemma_trim_end_concat,
    lemma_trim_end_idempotent, lemma_trim_end_nonempty, lemma_trim_end_prefix,
    lemma_uppercase_free_concat, string_of, trim_end_index, trim_end_spec, uppercase_free,
};

verus! {

/// The sentinel line that opens the managed block.
pub open spec fn start_marker() -> Seq<char> {
    "# MINDFULBLOCK_START"@
}

/// The sentinel line that closes the managed block.
pub open spec fn end_marker() -> Seq<char> {
    "# MINDFULBLOCK_END"@
}

/// The index of the first newline of `s`, or its length if it has none.
pub open spec fn find_nl(s: Seq<char>) -> int
    decreases s.len(),
{
    if s.len() == 0 {
        0
    } else if s[0] == '\n' {
        0
    } else {
        1 + find_nl(s.drop_first())
    }
}

pub proof fn lemma_find_nl(s: Seq<char>)
    ensures
        0 <= find_nl(s) <= s.len(),
        forall|j: int| 0 <= j < find_nl(s) ==> s[j] != '\n',
        find_nl(s) < s.len() ==> s[find_nl(s)] == '\n',
    decreases s.len(),
{
    if s.len() > 0 && s[0] != '\n' {
        lemma_find_nl(s.drop_first());
        assert forall|j: int| 0 <= j < find_nl(s) implies s[j] != '\n' by {
            if j > 0 {
                assert(s.drop_first()[j - 1] == s[j]);
            }
        }
        if find_nl(s) < s.len() {
            assert(s.drop_first()[find_nl(s) - 1] == s[find_nl(s)]);
        }
    }
}

/// `find_nl` is pinned down by what it finds.
pub proof fn lemma_find_nl_at(s: Seq<char>, m: int)
    requires
        0 <= m <= s.len(),
        forall|j: int| 0 <= j < m ==> s[j] != '\n',
        m < s.len() ==> s[m] == '\n',
    ensures
        find_nl(s) == m,
    decreases s.len(),
{
    if s.len() > 0 && s[0] != '\n' {
        assert forall|j: int| 0 <= j < m - 1 implies s.drop_first()[j] != '\n' by {
            assert(s.drop_first()[j] == s[j + 1]);
        }
        if m < s.len() {
            assert(s.drop_first()[m - 1] == s[m]);
        }
        lemma_find_nl_at(s.drop_first(), m - 1);
    }
}

/// A line as read back: one carriage return before the newline is dropped.
pub open spec fn chop_cr(l: Seq<char>) -> Seq<char> {
    if l.len() > 0 && l.last() == '\r' {
        l.drop_last()
    } else {
        l
    }
}

/// The lines of `s`: split at each newline, one trailing carriage return
/// removed from every line that a newline closed; a final fragment without a
/// newline stands as it is.
pub open spec fn lines_spec(s: Seq<char>) -> Seq<Seq<char>>
    decreases s.len(),
    via lines_spec_dec
{
    if s.len() == 0 {
        Seq::empty()
    } else {
        let i = find_nl(s);
        if i == s.len() {
            seq![s]
        } else {
            seq![chop_cr(s.subrange(0, i))] + lines_spec(s.subrange(i + 1, s.len() as int))
        }
    }
}

#[via_fn]
proof fn lines_spec_dec(s: Seq<char>) {
    lemma_find_nl(s);
}

/// The line opens a managed block.
pub open spec fn is_start_line(l: Seq<char>) -> bool {
    contains_sub(l, start_marker())
}

/// The line closes a managed block.
pub open spec fn is_end_line(l: Seq<char>) -> bool {
    contains_sub(l, end_marker())
}

/// The line carries neither sentinel.
pub open spec fn line_clean(l: Seq<char>) -> bool {
    !is_start_line(l) && !is_end_line(l)
}

/// The lines that survive reconciliation: sentinel lines toggle the in-block
/// state and are dropped, lines inside the block are dropped, all others stay.
pub open spec fn keep_lines(ls: Seq<Seq<char>>, in_block: bool) -> Seq<Seq<char>>
    decreases ls.len(),
{
    if ls.len() == 0 {
        Seq::empty()
    } else if is_start_line(ls[0]) {
        keep_lines(ls.drop_first(), true)
    } else if is_end_line(ls[0]) {
        keep_lines(ls.drop_first(), false)
    } else if in_block {
        keep_lines(ls.drop_first(), true)
    } else {
        seq![ls[0]] + keep_lines(ls.drop_first(), false)
    }
}

/// The in-block state after scanning `ls`.
pub open spec fn block_state(ls: Seq<Seq<char>>, in_block: bool) -> bool
    decreases ls.len(),
{
    if ls.len() == 0 {
        in_block
    } else if is_start_line(ls[0]) {
        block_state(ls.drop_first(), true)
    } else if is_end_line(ls[0]) {
        block_state(ls.drop_first(), false)
    } else {
        block_state(ls.drop_first(), in_block)
    }
}

/// Lines joined back into text, every line closed by a newline.
pub open spec fn join_lines(ls: Seq<Seq<char>>) -> Seq<char>
    decreases ls.len(),
{
    if ls.len() == 0 {
        Seq::empty()
    } else {
        ls[0] + seq!['\n'] + join_lines(ls.drop_first())
    }
}

/// Everything of `s` outside a managed block, newline-terminated.
pub open spec fn retained_spec(s: Seq<char>) -> Seq<char> {
    join_lines(keep_lines(lines_spec(s), false))
}

/// A rule that belongs in the hosts file.
pub open spec fn is_hard_rule(r: BlockRule) -> bool {
    r.is_active && r.mode == Mode::Hard
}

/// The four redirect lines written for one canonical domain.
pub open spec fn rule_lines(d: Seq<char>) -> Seq<char> {
    "127.0.0.1 "@ + d + "\n"@ + "127.0.0.1 www."@ + d + "\n"@ + "::1 "@ + d + "\n"@ + "::1 www."@
        + d + "\n"@
}

/// What one rule contributes to the managed block: four lines for an active
/// hard rule whose canonical domain is non-empty, nothing otherwise.
pub open spec fn rule_entry(r: BlockRule) -> Seq<char> {
    if is_hard_rule(r) && canon_spec(r.domain@).len() > 0 {
        rule_lines(canon_spec(r.domain@))
    } else {
        Seq::empty()
    }
}

/// The body of the managed block, in rule order.
pub open spec fn body_spec(rules: Seq<BlockRule>) -> Seq<char>
    decreases rules.len(),
{
    if rules.len() == 0 {
        Seq::empty()
    } else {
        rule_entry(rules[0]) + body_spec(rules.drop_first())
    }
}

/// The whole managed region as appended after the retained content.
pub open spec fn managed_suffix(rules: Seq<BlockRule>) -> Seq<char> {
    "\n\n"@ + start_marker() + "\n"@ + body_spec(rules) + end_marker() + "\n"@
}

/// The reconciled hosts-file content: the retained lines, trailing white
/// space trimmed, then the freshly built managed block.
pub open spec fn reconcile_spec(existing: Seq<char>, rules: Seq<BlockRule>) -> Seq<char> {
    trim_end_spec(retained_spec(existing)) + managed_suffix(rules)
}

/// The block body grows at the back as the rule list does.
pub proof fn lemma_body_spec_snoc(rules: Seq<BlockRule>, r: BlockRule)
    ensures
        body_spec(rules.push(r)) == body_spec(rules) + rule_entry(r),
    decreases rules.len(),
{
    let whole = rules.push(r);
    if rules.len() == 0 {
        assert(whole[0] == r);
        assert(whole.drop_first() =~= Seq::<BlockRule>::empty());
        assert(body_spec(whole.drop_first()) == Seq::<char>::empty());
        assert(body_spec(whole) =~= body_spec(rules) + rule_entry(r));
    } else {
        assert(whole[0] == rules[0]);
        assert(whole.drop_first() =~= rules.drop_first().push(r));
        lemma_body_spec_snoc(rules.drop_first(), r);
        assert(body_spec(whole) == rule_entry(whole[0]) + body_spec(whole.drop_first()));
        assert(body_spec(whole) =~= body_spec(rules) + rule_entry(r));
    }
}

/// Joined lines grow at the back as the line list does.
pub proof fn lemma_join_lines_snoc(ls: Seq<Seq<char>>, l: Seq<char>)
    ensures
        join_lines(ls.push(l)) == join_lines(ls) + l + seq!['\n'],
    decreases ls.len(),
{
    let whole = ls.push(l);
    if ls.len() == 0 {
        assert(whole[0] == l);
        assert(whole.drop_first() =~= Seq::<Seq<char>>::empty());
        assert(join_lines(whole.drop_first()) == Seq::<char>::empty());
        assert(join_lines(whole) =~= join_lines(ls) + l + seq!['\n']);
    } else {
        assert(whole[0] == ls[0]);
        assert(whole.drop_first() =~= ls.drop_first().push(l));
        lemma_join_lines_snoc(ls.drop_first(), l);
        assert(join_lines(whole) == whole[0] + seq!['\n'] + join_lines(whole.drop_first()));
        assert(join_lines(whole) =~= join_lines(ls) + l + seq!['\n']);
    }
}

/// The fixed pieces of a redirect line hold no ASCII capital.
proof fn lemma_rule_pieces_upper_free()
    ensures
        uppercase_free("127.0.0.1 "@),
        uppercase_free("127.0.0.1 www."@),
        uppercase_free("::1 "@),
        uppercase_free("::1 www."@),
        uppercase_free("\n"@),
{
    reveal_strlit("127.0.0.1 ");
    reveal_strlit("127.0.0.1 www.");
    reveal_strlit("::1 ");
    reveal_strlit("::1 www.");
    reveal_strlit("\n");
}

/// Four redirect lines for a capital-free domain hold no ASCII capital.
pub proof fn lemma_rule_lines_upper_free(d: Seq<char>)
    requires
        uppercase_free(d),
    ensures
        uppercase_free(rule_lines(d)),
{
    lemma_rule_pieces_upper_free();
    lemma_uppercase_free_concat("127.0.0.1 "@, d);
    lemma_uppercase_free_concat("127.0.0.1 "@ + d, "\n"@);
    let l1 = "127.0.0.1 "@ + d + "\n"@;
    lemma_uppercase_free_concat(l1, "127.0.0.1 www."@);
    lemma_uppercase_free_concat(l1 + "127.0.0.1 www."@, d);
    lemma_uppercase_free_concat(l1 + "127.0.0.1 www."@ + d, "\n"@);
    let l2 = l1 + "127.0.0.1 www."@ + d + "\n"@;
    lemma_uppercase_free_concat(l2, "::1 "@);
    lemma_uppercase_free_concat(l2 + "::1 "@, d);
    lemma_uppercase_free_concat(l2 + "::1 "@ + d, "\n"@);
    let l3 = l2 + "::1 "@ + d + "\n"@;
    lemma_uppercase_free_concat(l3, "::1 www."@);
    lemma_uppercase_free_concat(l3 + "::1 www."@, d);
    lemma_uppercase_free_concat(l3 + "::1 www."@ + d, "\n"@);
}

/// Appends the characters of `s` to `dst`.
pub(crate) fn push_chars(dst: &mut Vec<char>, s: &str)
    ensures
        final(dst)@ == old(dst)@ + s@,
{
    let mut v = chars_vec(s);
    dst.append(&mut v);
}

/// Appends a copy of `src` to `dst`.
pub(crate) fn push_all(dst: &mut Vec<char>, src: &Vec<char>)
    ensures
        final(dst)@ == old(dst)@ + src@,
{
    let mut k: usize = 0;
    while k < src.len()
        invariant
            k <= src@.len(),
            dst@ == old(dst)@ + src@.subrange(0, k as int),
        decreases src@.len() - k,
    {
        let c = src[k];
        dst.push(c);
        proof {
            assert(old(dst)@ + src@.subrange(0, k as int + 1) =~= (old(dst)@ + src@.subrange(
                0,
                k as int,
            )).push(src@[k as int]));
        }
        k = k + 1;
    }
    proof {
        assert(src@.subrange(0, src@.len() as int) =~= src@);
    }
}

/// Rebuilds the hosts-file content from its previous text and the rule set:
/// any prior managed block is dropped, everything else is kept in order, and a
/// fresh block holding exactly the active hard rules is appended.
pub fn reconcile(existing: &str, rules: &Vec<BlockRule>) -> (out: String)
    ensures
        out@ == reconcile_spec(existing@, rules@),
        uppercase_free(body_spec(rules@)),
        mid_cr_free(trim_ls(keep_lines(lines_spec(existing@), false))) ==> reconcile_spec(
            out@,
            rules@,
        ) == out@,
{
    let cv = chars_vec(existing);
    let n = cv.len();
    let start_m = chars_vec("# MINDFULBLOCK_START");
    let end_m = chars_vec("# MINDFULBLOCK_END");
    let mut kept: Vec<char> = Vec::new();
    let ghost mut kept_ls: Seq<Seq<char>> = Seq::empty();
    let mut in_block = false;
    let mut pos: usize = 0;
    proof {
        assert(cv@.subrange(0, n as int) =~= cv@);
    }
    while pos < n
        invariant
            pos <= n,
            n == cv@.len(),
            cv@ == existing@,
            start_m@ == start_marker(),
            end_m@ == end_marker(),
            keep_lines(lines_spec(existing@), false) == kept_ls + keep_lines(
                lines_spec(cv@.subrange(pos as int, n as int)),
                in_block,
            ),
            kept@ == join_lines(kept_ls),
        decreases n - pos,
    {
        let ghost suffix = cv@.subrange(pos as int, n as int);
        let mut j: usize = pos;
        while j < n && cv[j] != '\n'
            invariant
                pos <= j <= n,
                n == cv@.len(),
                forall|k: int| pos <= k < j ==> cv@[k] != '\n',
            decreases n - j,
        {
            j = j + 1;
        }
        proof {
            assert forall|k: int| 0 <= k < j - pos implies suffix[k] != '\n' by {
                assert(suffix[k] == cv@[pos + k]);
            }
            if j < n {
                assert(suffix[j - pos] == cv@[j as int]);
            }
            lemma_find_nl_at(suffix, j - pos);
        }
        let mut line: Vec<char> = Vec::new();
        let mut k: usize = pos;
        while k < j
            invariant
                pos <= k <= j <= n,
                n == cv@.len(),
                line@ == cv@.subrange(pos as int, k as int),
            decreases j - k,
        {
            let c = cv[k];
            line.push(c);
            proof {
                assert(line@ =~= cv@.subrange(pos as int, k + 1 as int));
            }
            k = k + 1;
        }
        let ghost raw = cv@.subrange(pos as int, j as int);
        let has_nl = j < n;
        if has_nl && line.len() > 0 && line[line.len() - 1] == '\r' {
            line.pop();
            proof {
                assert(line@ =~= chop_cr(raw));
            }
        }
        let ghost line_s = line@;
        let ghost next_pos: int = if has_nl {
            j + 1
        } else {
            n as int
        };
        let ghost suffix2 = cv@.subrange(next_pos, n as int);
        proof {
            if has_nl {
                assert(suffix.subrange(0, j - pos) =~= raw);
                assert(suffix.subrange(j - pos + 1, suffix.len() as int) =~= suffix2);
                assert(lines_spec(suffix) == seq![chop_cr(raw)] + lines_spec(suffix2));
                assert(line_s == chop_cr(raw));
            } else {
                assert(suffix =~= raw);
                assert(line_s == raw);
                assert(suffix2 =~= Seq::<char>::empty());
                assert(lines_spec(suffix) == seq![line_s]);
                assert(lines_spec(suffix) =~= seq![line_s] + lines_spec(suffix2));
            }
            let lsfx = lines_spec(suffix);
            assert(lsfx == seq![line_s] + lines_spec(suffix2));
            assert(lsfx[0] == line_s);
            assert(lsfx.drop_first() =~= lines_spec(suffix2));
        }
        if contains_chars(&line, &start_m) {
            in_block = true;
        } else if contains_chars(&line, &end_m) {
            in_block = false;
        } else if !in_block {
            proof {
                assert(kept_ls + (seq![line_s] + keep_lines(lines_spec(suffix2), false))
                    =~= kept_ls.push(line_s) + keep_lines(lines_spec(suffix2), false));
                lemma_join_lines_snoc(kept_ls, line_s);
            }
            kept.append(&mut line);
            kept.push('\n');
            proof {
                kept_ls = kept_ls.push(line_s);
                assert(kept@ =~= join_lines(kept_ls));
            }
        }
        pos = if has_nl {
            j + 1
        } else {
            n
        };
    }
    proof {
        assert(cv@.subrange(n as int, n as int) =~= Seq::<char>::empty());
        assert(keep_lines(lines_spec(existing@), false) =~= kept_ls);
        assert(kept@ == retained_spec(existing@));
    }
    // trim trailing white space of the retained content
    let e = trim_end_index(&kept);
    kept.truncate(e);
    let ghost base = trim_end_spec(retained_spec(existing@));
    proof {
        assert(kept@ == base);
    }
    // open the managed block
    push_chars(&mut kept, "\n\n");
    push_chars(&mut kept, "# MINDFULBLOCK_START");
    push_chars(&mut kept, "\n");
    let ghost head = base + "\n\n"@ + start_marker() + "\n"@;
    proof {
        assert(kept@ == head);
        assert(rules@.subrange(0, 0) =~= Seq::<BlockRule>::empty());
        assert(kept@ =~= head + body_spec(rules@.subrange(0, 0)));
    }
    // the block body, in rule order
    let mut i: usize = 0;
    while i < rules.len()
        invariant
            i <= rules@.len(),
            kept@ == head + body_spec(rules@.subrange(0, i as int)),
            uppercase_free(body_spec(rules@.subrange(0, i as int))),
        decreases rules@.len() - i,
    {
        proof {
            assert(rules@.subrange(0, i + 1 as int) =~= rules@.subrange(0, i as int).push(
                rules@[i as int]));
            lemma_body_spec_snoc(rules@.subrange(0, i as int), rules@[i as int]);
        }
        let r = &rules[i];
        let ghost before = kept@;
        if r.is_active && matches!(r.mode, Mode::Hard) {
            let dv = canonical_chars(r.domain.as_str());
            if dv.len() > 0 {
                push_chars(&mut kept, "127.0.0.1 ");
                push_all(&mut kept, &dv);
                push_chars(&mut kept, "\n");
                push_chars(&mut kept, "127.0.0.1 www.");
                push_all(&mut kept, &dv);
                push_chars(&mut kept, "\n");
                push_chars(&mut kept, "::1 ");
                push_all(&mut kept, &dv);
                push_chars(&mut kept, "\n");
                push_chars(&mut kept, "::1 www.");
                push_all(&mut kept, &dv);
                push_chars(&mut kept, "\n");
                proof {
                    assert(kept@ =~= before + rule_lines(dv@));
                    assert(rule_entry(rules@[i as int]) == rule_lines(dv@));
                    lemma_rule_lines_upper_free(dv@);
                }
            } else {
                proof {
                    assert(rule_entry(rules@[i as int]) == Seq::<char>::empty());
                }
            }
        } else {
            proof {
                assert(rule_entry(rules@[i as int]) == Seq::<char>::empty());
            }
        }
        proof {
            assert(kept@ =~= head + body_spec(rules@.subrange(0, i + 1 as int)));
            lemma_uppercase_free_concat(
                body_spec(rules@.subrange(0, i as int)),
                rule_entry(rules@[i as int]),
            );
        }
        i = i + 1;
    }
    proof {
        assert(rules@.subrange(0, rules@.len() as int) =~= rules@);
    }
    // close the managed block
    push_chars(&mut kept, "# MINDFULBLOCK_END");
    push_chars(&mut kept, "\n");
    proof {
        assert(kept@ =~= reconcile_spec(existing@, rules@));
        if mid_cr_free(trim_ls(keep_lines(lines_spec(existing@), false))) {
            lemma_reconcile_idempotent(existing@, rules@);
        }
    }
    string_of(&kept)
}

/// `l` holds no newline.
pub open spec fn no_nl(l: Seq<char>) -> bool {
    forall|j: int| 0 <= j < l.len() ==> #[trigger] l[j] != '\n'
}

/// Concrete facts about the two sentinel strings.
proof fn lemma_marker_facts()
    ensures
        start_marker().len() == 20,
        end_marker().len() == 18,
        start_marker()[2] == 'M',
        end_marker()[2] == 'M',
        no_nl(start_marker()),
        no_nl(end_marker()),
        !ends_cr(start_marker()),
        !ends_cr(end_marker()),
        is_start_line(start_marker()),
        is_end_line(end_marker()),
        !is_start_line(end_marker()),
        "\n\n"@ =~= seq!['\n', '\n'],
        "\n"@ =~= seq!['\n'],
{
    reveal_strlit("# MINDFULBLOCK_START");
    reveal_strlit("# MINDFULBLOCK_END");
    reveal_strlit("\n\n");
    reveal_strlit("\n");
    assert(start_marker().subrange(0, 0 + start_marker().len() as int) =~= start_marker());
    assert(end_marker().subrange(0, 0 + end_marker().len() as int) =~= end_marker());
}

/// A line without ASCII capitals carries neither sentinel.
pub proof fn lemma_upper_free_clean(l: Seq<char>)
    requires
        uppercase_free(l),
    ensures
        line_clean(l),
{
    lemma_marker_facts();
    if is_start_line(l) {
        let i = choose|i: int|
            0 <= i && i + start_marker().len() <= l.len() && #[trigger] l.subrange(
                i,
                i + start_marker().len(),
            ) == start_marker();
        assert(l.subrange(i, i + start_marker().len())[2] == l[i + 2]);
        assert(l[i + 2] == 'M');
    }
    if is_end_line(l) {
        let i = choose|i: int|
            0 <= i && i + end_marker().len() <= l.len() && #[trigger] l.subrange(
                i,
                i + end_marker().len(),
            ) == end_marker();
        assert(l.subrange(i, i + end_marker().len())[2] == l[i + 2]);
        assert(l[i + 2] == 'M');
    }
}

/// Every line of a capital-free text is capital-free.
pub proof fn lemma_lines_upper_free(s: Seq<char>)
    requires
        uppercase_free(s),
    ensures
        forall|k: int|
            0 <= k < lines_spec(s).len() ==> uppercase_free(#[trigger] lines_spec(s)[k]),
    decreases s.len(),
{
    if s.len() > 0 {
        lemma_find_nl(s);
        let i = find_nl(s);
        if i < s.len() {
            let rest = s.subrange(i + 1, s.len() as int);
            assert forall|j: int| 0 <= j < rest.len() implies !(65 <= #[trigger] rest[j] as u32
                && rest[j] as u32 <= 90) by {
                assert(rest[j] == s[i + 1 + j]);
            }
            lemma_lines_upper_free(rest);
            let head = chop_cr(s.subrange(0, i));
            assert forall|j: int| 0 <= j < head.len() implies !(65 <= #[trigger] head[j] as u32
                && head[j] as u32 <= 90) by {
                assert(head[j] == s[j]);
            }
            assert forall|k: int|
                0 <= k < lines_spec(s).len() implies uppercase_free(
                #[trigger] lines_spec(s)[k]) by {
                if k > 0 {
                    assert(lines_spec(s)[k] == lines_spec(rest)[k - 1]);
                }
            }
        }
    }
}

/// Every line of any text holds no newline.
pub proof fn lemma_lines_no_nl(s: Seq<char>)
    ensures
        forall|k: int| 0 <= k < lines_spec(s).len() ==> no_nl(#[trigger] lines_spec(s)[k]),
    decreases s.len(),
{
    if s.len() > 0 {
        lemma_find_nl(s);
        let i = find_nl(s);
        if i == s.len() {
            assert(no_nl(s));
        } else {
            let rest = s.subrange(i + 1, s.len() as int);
            lemma_lines_no_nl(rest);
            let head = chop_cr(s.subrange(0, i));
            assert forall|j: int| 0 <= j < head.len() implies #[trigger] head[j] != '\n' by {
                assert(head[j] == s[j]);
            }
            assert forall|k: int| 0 <= k < lines_spec(s).len() implies no_nl(
                #[trigger] lines_spec(s)[k]) by {
                if k > 0 {
                    assert(lines_spec(s)[k] == lines_spec(rest)[k - 1]);
                }
            }
        }
    }
}

/// Splitting distributes over a concatenation whose first part ends in a
/// newline.
pub proof fn lemma_lines_concat(a: Seq<char>, b: Seq<char>)
    requires
        a.len() > 0,
        a.last() == '\n',
    ensures
        lines_spec(a + b) == lines_spec(a) + lines_spec(b),
    decreases a.len(),
{
    lemma_find_nl(a);
    let i = find_nl(a);
    if i == a.len() {
        assert(a[a.len() - 1] != '\n');
    }
    assert forall|j: int| 0 <= j < i implies (a + b)[j] != '\n' by {
        assert((a + b)[j] == a[j]);
    }
    assert((a + b)[i] == a[i]);
    lemma_find_nl_at(a + b, i);
    assert((a + b).subrange(0, i) =~= a.subrange(0, i));
    if i + 1 == a.len() {
        assert((a + b).subrange(i + 1, (a + b).len() as int) =~= b);
        assert(a.subrange(i + 1, a.len() as int) =~= Seq::<char>::empty());
        assert(lines_spec(a.subrange(i + 1, a.len() as int)) == Seq::<Seq<char>>::empty());
        assert(lines_spec(a) =~= seq![chop_cr(a.subrange(0, i))]);
        assert(lines_spec(a + b) =~= lines_spec(a) + lines_spec(b));
    } else {
        let a2 = a.subrange(i + 1, a.len() as int);
        assert(a2.last() == a.last());
        assert((a + b).subrange(i + 1, (a + b).len() as int) =~= a2 + b);
        lemma_lines_concat(a2, b);
        assert(lines_spec(a + b) =~= lines_spec(a) + lines_spec(b));
    }
}

/// Kept lines carry no sentinel.
pub proof fn lemma_keep_clean(ls: Seq<Seq<char>>, b: bool)
    ensures
        forall|k: int|
            0 <= k < keep_lines(ls, b).len() ==> line_clean(#[trigger] keep_lines(ls, b)[k]),
    decreases ls.len(),
{
    if ls.len() > 0 {
        lemma_keep_clean(ls.drop_first(), true);
        lemma_keep_clean(ls.drop_first(), false);
        assert forall|k: int| 0 <= k < keep_lines(ls, b).len() implies line_clean(
            #[trigger] keep_lines(ls, b)[k]) by {
            if is_start_line(ls[0]) {
                assert(keep_lines(ls, b)[k] == keep_lines(ls.drop_first(), true)[k]);
            } else if is_end_line(ls[0]) {
                assert(keep_lines(ls, b)[k] == keep_lines(ls.drop_first(), false)[k]);
            } else if b {
                assert(keep_lines(ls, b)[k] == keep_lines(ls.drop_first(), true)[k]);
            } else if k == 0 {
                assert(keep_lines(ls, b)[0] == ls[0]);
            } else {
                assert(keep_lines(ls, b)[k] == keep_lines(ls.drop_first(), false)[k - 1]);
            }
        }
    }
}

/// Keeping preserves the absence of newlines.
pub proof fn lemma_keep_no_nl(ls: Seq<Seq<char>>, b: bool)
    requires
        forall|k: int| 0 <= k < ls.len() ==> no_nl(#[trigger] ls[k]),
    ensures
        forall|k: int|
            0 <= k < keep_lines(ls, b).len() ==> no_nl(#[trigger] keep_lines(ls, b)[k]),
    decreases ls.len(),
{
    if ls.len() > 0 {
        assert forall|k: int| 0 <= k < ls.drop_first().len() implies no_nl(
            #[trigger] ls.drop_first()[k]) by {
            assert(ls.drop_first()[k] == ls[k + 1]);
        }
        lemma_keep_no_nl(ls.drop_first(), true);
        lemma_keep_no_nl(ls.drop_first(), false);
        assert forall|k: int| 0 <= k < keep_lines(ls, b).len() implies no_nl(
            #[trigger] keep_lines(ls, b)[k]) by {
            if is_start_line(ls[0]) {
                assert(keep_lines(ls, b)[k] == keep_lines(ls.drop_first(), true)[k]);
            } else if is_end_line(ls[0]) {
                assert(keep_lines(ls, b)[k] == keep_lines(ls.drop_first(), false)[k]);
            } else if b {
                assert(keep_lines(ls, b)[k] == keep_lines(ls.drop_first(), true)[k]);
            } else if k == 0 {
                assert(keep_lines(ls, b)[0] == ls[0]);
            } else {
                assert(keep_lines(ls, b)[k] == keep_lines(ls.drop_first(), false)[k - 1]);
            }
        }
    }
}

/// Keeping and the in-block state distribute over concatenation.
pub proof fn lemma_keep_concat(ls1: Seq<Seq<char>>, ls2: Seq<Seq<char>>, b: bool)
    ensures
        keep_lines(ls1 + ls2, b) == keep_lines(ls1, b) + keep_lines(ls2, block_state(ls1, b)),
        block_state(ls1 + ls2, b) == block_state(ls2, block_state(ls1, b)),
    decreases ls1.len(),
{
    if ls1.len() == 0 {
        assert(ls1 + ls2 =~= ls2);
        assert(keep_lines(ls1, b) =~= Seq::<Seq<char>>::empty());
        assert(keep_lines(ls1 + ls2, b) =~= keep_lines(ls1, b) + keep_lines(
            ls2,
            block_state(ls1, b),
        ));
    } else {
        let whole = ls1 + ls2;
        assert(whole[0] == ls1[0]);
        assert(whole.drop_first() =~= ls1.drop_first() + ls2);
        if is_start_line(ls1[0]) {
            lemma_keep_concat(ls1.drop_first(), ls2, true);
        } else if is_end_line(ls1[0]) {
            lemma_keep_concat(ls1.drop_first(), ls2, false);
        } else if b {
            lemma_keep_concat(ls1.drop_first(), ls2, true);
        } else {
            lemma_keep_concat(ls1.drop_first(), ls2, false);
            assert(keep_lines(whole, b) =~= keep_lines(ls1, b) + keep_lines(
                ls2,
                block_state(ls1, b),
            ));
        }
    }
}

/// Sentinel-free lines pass keeping outside a block untouched and vanish
/// inside one, and the in-block state is unchanged either way.
pub proof fn lemma_keep_all_clean(ls: Seq<Seq<char>>)
    requires
        forall|k: int| 0 <= k < ls.len() ==> line_clean(#[trigger] ls[k]),
    ensures
        keep_lines(ls, false) == ls,
        keep_lines(ls, true) == Seq::<Seq<char>>::empty(),
        block_state(ls, false) == false,
        block_state(ls, true) == true,
    decreases ls.len(),
{
    if ls.len() == 0 {
        assert(keep_lines(ls, false) =~= ls);
    } else {
        assert(line_clean(ls[0]));
        assert forall|k: int| 0 <= k < ls.drop_first().len() implies line_clean(
            #[trigger] ls.drop_first()[k]) by {
            assert(ls.drop_first()[k] == ls[k + 1]);
        }
        lemma_keep_all_clean(ls.drop_first());
        assert(keep_lines(ls, false) =~= ls);
    }
}

/// Joining is the inverse of splitting for newline-free lines without a
/// trailing carriage return.
pub proof fn lemma_join_inverse(ls: Seq<Seq<char>>)
    requires
        forall|k: int| 0 <= k < ls.len() ==> no_nl(#[trigger] ls[k]),
        forall|k: int| 0 <= k < ls.len() ==> !ends_cr(#[trigger] ls[k]),
    ensures
        lines_spec(join_lines(ls)) == ls,
    decreases ls.len(),
{
    if ls.len() == 0 {
        assert(lines_spec(join_lines(ls)) =~= ls);
    } else {
        let l0 = ls[0];
        let j = join_lines(ls);
        assert(j == l0 + seq!['\n'] + join_lines(ls.drop_first()));
        assert forall|k: int| 0 <= k < l0.len() implies j[k] != '\n' by {
            assert(j[k] == l0[k]);
        }
        assert(j[l0.len() as int] == '\n');
        lemma_find_nl_at(j, l0.len() as int);
        assert(j.subrange(0, l0.len() as int) =~= l0);
        assert(!ends_cr(l0));
        assert(chop_cr(l0) == l0);
        assert(j.subrange(l0.len() as int + 1, j.len() as int) =~= join_lines(ls.drop_first()));
        assert forall|k: int| 0 <= k < ls.drop_first().len() implies no_nl(
            #[trigger] ls.drop_first()[k]) && !ends_cr(ls.drop_first()[k]) by {
            assert(ls.drop_first()[k] == ls[k + 1]);
        }
        lemma_join_inverse(ls.drop_first());
        assert(lines_spec(j) =~= ls);
    }
}

/// A non-empty joined text ends with a newline.
pub proof fn lemma_join_ends_nl(ls: Seq<Seq<char>>)
    requires
        ls.len() > 0,
    ensures
        join_lines(ls).len() > 0,
        join_lines(ls).last() == '\n',
{
    assert(ls.drop_last().push(ls.last()) =~= ls);
    lemma_join_lines_snoc(ls.drop_last(), ls.last());
}

/// The line list after trimming trailing white space: all-space lines fall
/// off the back, then the last survivor is end-trimmed.
pub open spec fn trim_ls(ls: Seq<Seq<char>>) -> Seq<Seq<char>>
    decreases ls.len(),
{
    if ls.len() == 0 {
        ls
    } else if all_space(ls.last()) {
        trim_ls(ls.drop_last())
    } else {
        ls.update(ls.len() - 1, trim_end_spec(ls.last()))
    }
}

/// End-trimming a joined text acts line-wise, as `trim_ls` says.
pub proof fn lemma_trim_join(ls: Seq<Seq<char>>)
    ensures
        trim_ls(ls).len() == 0 ==> trim_end_spec(join_lines(ls)) == Seq::<char>::empty(),
        trim_ls(ls).len() > 0 ==> trim_end_spec(join_lines(ls)) + seq!['\n'] == join_lines(
            trim_ls(ls),
        ),
    decreases ls.len(),
{
    if ls.len() == 0 {
        assert(trim_end_spec(join_lines(ls)) =~= Seq::<char>::empty());
    } else {
        let front = ls.drop_last();
        let last = ls.last();
        assert(front.push(last) =~= ls);
        lemma_join_lines_snoc(front, last);
        let tail = last + seq!['\n'];
        assert(join_lines(ls) =~= join_lines(front) + tail);
        assert(is_space('\n'));
        assert(tail.last() == '\n');
        assert(tail.drop_last() =~= last);
        assert(trim_end_spec(tail) == trim_end_spec(last));
        lemma_trim_end_concat(join_lines(front), tail);
        if all_space(last) {
            lemma_trim_end_all_space(last);
            lemma_trim_join(front);
        } else {
            lemma_trim_end_nonempty(last);
            assert(trim_end_spec(join_lines(ls)) == join_lines(front) + trim_end_spec(last));
            let tls = ls.update(ls.len() - 1, trim_end_spec(last));
            assert(tls =~= front.push(trim_end_spec(last)));
            lemma_join_lines_snoc(front, trim_end_spec(last));
            assert(trim_end_spec(join_lines(ls)) + seq!['\n'] =~= join_lines(tls));
        }
    }
}

/// The trimmed line list keeps the shape the idempotence proof needs: lines
/// still hold no newline or sentinel, and the last one cannot end in a
/// carriage return.
pub proof fn lemma_trim_ls_entries(ls: Seq<Seq<char>>)
    requires
        forall|k: int| 0 <= k < ls.len() ==> no_nl(#[trigger] ls[k]),
        forall|k: int| 0 <= k < ls.len() ==> line_clean(#[trigger] ls[k]),
    ensures
        forall|k: int| 0 <= k < trim_ls(ls).len() ==> no_nl(#[trigger] trim_ls(ls)[k]),
        forall|k: int| 0 <= k < trim_ls(ls).len() ==> line_clean(#[trigger] trim_ls(ls)[k]),
        trim_ls(ls).len() > 0 ==> !ends_cr(trim_ls(ls).last()),
    decreases ls.len(),
{
    if ls.len() > 0 {
        if all_space(ls.last()) {
            assert forall|k: int| 0 <= k < ls.drop_last().len() implies no_nl(
                #[trigger] ls.drop_last()[k]) && line_clean(ls.drop_last()[k]) by {
                assert(ls.drop_last()[k] == ls[k]);
            }
            lemma_trim_ls_entries(ls.drop_last());
        } else {
            let last = ls.last();
            let tl = trim_end_spec(last);
            lemma_trim_end_prefix(last);
            lemma_trim_end_nonempty(last);
            lemma_trim_end_clean(last);
            assert(is_space('\r'));
            assert(!ends_cr(tl));
            assert forall|j: int| 0 <= j < tl.len() implies #[trigger] tl[j] != '\n' by {
                assert(tl[j] == last[j]);
            }
            if !line_clean(tl) {
                if is_start_line(tl) {
                    lemma_contains_prefix(last, tl.len() as int, start_marker());
                }
                if is_end_line(tl) {
                    lemma_contains_prefix(last, tl.len() as int, end_marker());
                }
            }
            assert(trim_ls(ls) =~= ls.update(ls.len() - 1, tl));
        }
    }
}

/// The block body is empty or newline-terminated.
pub proof fn lemma_body_ends_nl(rules: Seq<BlockRule>)
    ensures
        body_spec(rules).len() > 0 ==> body_spec(rules).last() == '\n',
    decreases rules.len(),
{
    reveal_strlit("\n");
    assert("\n"@.len() == 1);
    if rules.len() > 0 {
        lemma_body_ends_nl(rules.drop_first());
        let e = rule_entry(rules[0]);
        let rest = body_spec(rules.drop_first());
        if rest.len() > 0 {
            assert((e + rest).last() == rest.last());
        } else {
            assert(e + rest =~= e);
            if e.len() > 0 {
                assert(e.last() == '\n');
            }
        }
    }
}

/// Non-final lines do not end in a carriage return.
pub open spec fn mid_cr_free(ls: Seq<Seq<char>>) -> bool {
    forall|k: int| 0 <= k < ls.len() - 1 ==> !ends_cr(#[trigger] ls[k])
}

/// A one-line list under the keeping scan.
proof fn lemma_keep_single(l: Seq<char>, b: bool)
    ensures
        keep_lines(seq![l], b) == (if is_start_line(l) || is_end_line(l) || b {
            Seq::<Seq<char>>::empty()
        } else {
            seq![l]
        }),
        block_state(seq![l], b) == (if is_start_line(l) {
            true
        } else if is_end_line(l) {
            false
        } else {
            b
        }),
{
    let e = seq![l];
    assert(e[0] == l);
    assert(e.drop_first() =~= Seq::<Seq<char>>::empty());
    assert(keep_lines(e.drop_first(), true) == Seq::<Seq<char>>::empty());
    assert(keep_lines(e.drop_first(), false) == Seq::<Seq<char>>::empty());
    assert(block_state(e.drop_first(), true) == true);
    assert(block_state(e.drop_first(), false) == false);
    if !(is_start_line(l) || is_end_line(l) || b) {
        assert(keep_lines(e, b) =~= seq![l]);
    }
}

/// The lines of the three fixed pieces around the block body.
#[verifier::rlimit(100)]
proof fn lemma_piece_lines()
    ensures
        lines_spec(seq!['\n']) == seq![Seq::<char>::empty()],
        lines_spec(start_marker() + seq!['\n']) == seq![start_marker()],
        lines_spec(end_marker() + seq!['\n']) == seq![end_marker()],
{
    lemma_marker_facts();
    let p_blank = seq!['\n'];
    let p_start = start_marker() + seq!['\n'];
    let p_end = end_marker() + seq!['\n'];
    assert(p_blank[0] == '\n');
    lemma_find_nl_at(p_blank, 0);
    assert(p_blank.subrange(0, 0) =~= Seq::<char>::empty());
    assert(p_blank.subrange(1, 1) =~= Seq::<char>::empty());
    assert(lines_spec(p_blank.subrange(1, 1)) == Seq::<Seq<char>>::empty());
    assert(lines_spec(p_blank) =~= seq![Seq::<char>::empty()]);
    assert forall|j: int| 0 <= j < start_marker().len() implies p_start[j] != '\n' by {
        assert(p_start[j] == start_marker()[j]);
    }
    assert(p_start[start_marker().len() as int] == '\n');
    lemma_find_nl_at(p_start, start_marker().len() as int);
    assert(p_start.subrange(0, start_marker().len() as int) =~= start_marker());
    let pst = p_start.subrange(start_marker().len() as int + 1, p_start.len() as int);
    assert(pst =~= Seq::<char>::empty());
    assert(lines_spec(pst) == Seq::<Seq<char>>::empty());
    assert(lines_spec(p_start) =~= seq![start_marker()]);
    assert forall|j: int| 0 <= j < end_marker().len() implies p_end[j] != '\n' by {
        assert(p_end[j] == end_marker()[j]);
    }
    assert(p_end[end_marker().len() as int] == '\n');
    lemma_find_nl_at(p_end, end_marker().len() as int);
    assert(p_end.subrange(0, end_marker().len() as int) =~= end_marker());
    let pen = p_end.subrange(end_marker().len() as int + 1, p_end.len() as int);
    assert(pen =~= Seq::<char>::empty());
    assert(lines_spec(pen) == Seq::<Seq<char>>::empty());
    assert(lines_spec(p_end) =~= seq![end_marker()]);
}

/// The lines of the managed region that follows the first blank line.
#[verifier::rlimit(100)]
proof fn lemma_region_lines(body: Seq<char>)
    requires
        body.len() > 0 ==> body.last() == '\n',
    ensures
        lines_spec(seq!['\n'] + (start_marker() + seq!['\n'] + (body + (end_marker()
            + seq!['\n'])))) == seq![Seq::<char>::empty()] + (seq![start_marker()] + (lines_spec(
            body,
        ) + seq![end_marker()])),
{
    lemma_piece_lines();
    let p_blank = seq!['\n'];
    let p_start = start_marker() + seq!['\n'];
    let p_end = end_marker() + seq!['\n'];
    if body.len() > 0 {
        lemma_lines_concat(body, p_end);
    } else {
        assert(body + p_end =~= p_end);
        assert(lines_spec(body) + seq![end_marker()] =~= seq![end_marker()]);
    }
    assert(p_start.last() == '\n');
    lemma_lines_concat(p_start, body + p_end);
    lemma_lines_concat(p_blank, p_start + (body + p_end));
    assert(seq!['\n'] + (start_marker() + seq!['\n'] + (body + (end_marker() + seq!['\n'])))
        =~= p_blank + (p_start + (body + p_end)));
    assert(lines_spec(p_blank + (p_start + (body + p_end))) =~= seq![Seq::<char>::empty()] + (
    seq![start_marker()] + (lines_spec(body) + seq![end_marker()])));
}

/// The keeping scan swallows the managed region whole, and leaves the
/// in-block state off.
#[verifier::rlimit(100)]
proof fn lemma_region_keep(body: Seq<char>)
    requires
        uppercase_free(body),
    ensures
        keep_lines(
            seq![Seq::<char>::empty()] + (seq![start_marker()] + (lines_spec(body)
                + seq![end_marker()])),
            false,
        ) == seq![Seq::<char>::empty()],
        block_state(
            seq![Seq::<char>::empty()] + (seq![start_marker()] + (lines_spec(body)
                + seq![end_marker()])),
            false,
        ) == false,
{
    lemma_marker_facts();
    lemma_lines_upper_free(body);
    let bl = lines_spec(body);
    assert forall|k: int| 0 <= k < bl.len() implies line_clean(#[trigger] bl[k]) by {
        lemma_upper_free_clean(bl[k]);
    }
    lemma_keep_single(Seq::<char>::empty(), false);
    lemma_keep_single(start_marker(), false);
    lemma_keep_single(end_marker(), true);
    lemma_keep_all_clean(bl);
    lemma_keep_concat(bl, seq![end_marker()], true);
    assert(keep_lines(bl + seq![end_marker()], true) =~= Seq::<Seq<char>>::empty());
    lemma_keep_concat(seq![start_marker()], bl + seq![end_marker()], false);
    assert(keep_lines(seq![start_marker()] + (bl + seq![end_marker()]), false)
        =~= Seq::<Seq<char>>::empty());
    lemma_keep_concat(
        seq![Seq::<char>::empty()],
        seq![start_marker()] + (bl + seq![end_marker()]),
        false,
    );
    assert(keep_lines(
        seq![Seq::<char>::empty()] + (seq![start_marker()] + (bl + seq![end_marker()])),
        false,
    ) =~= seq![Seq::<char>::empty()]);
}

/// After the retained, trimmed text and its blank line, a swallowed region
/// leaves the retained text unchanged by another trim.
#[verifier::rlimit(100)]
proof fn lemma_idem_join(
    tls: Seq<Seq<char>>,
    r: Seq<char>,
    region: Seq<char>,
    region_lines: Seq<Seq<char>>,
)
    requires
        tls.len() > 0,
        forall|k: int| 0 <= k < tls.len() ==> no_nl(#[trigger] tls[k]),
        forall|k: int| 0 <= k < tls.len() ==> line_clean(#[trigger] tls[k]),
        forall|k: int| 0 <= k < tls.len() ==> !ends_cr(#[trigger] tls[k]),
        r + seq!['\n'] == join_lines(tls),
        trim_end_spec(r) == r,
        lines_spec(region) == region_lines,
        keep_lines(region_lines, false) == seq![Seq::<char>::empty()],
        block_state(region_lines, false) == false,
    ensures
        trim_end_spec(retained_spec(join_lines(tls) + region)) == r,
{
    let out = join_lines(tls) + region;
    lemma_join_ends_nl(tls);
    lemma_lines_concat(join_lines(tls), region);
    lemma_join_inverse(tls);
    assert(lines_spec(out) == tls + region_lines);
    lemma_keep_concat(tls, region_lines, false);
    lemma_keep_all_clean(tls);
    let kept2 = keep_lines(lines_spec(out), false);
    assert(kept2 =~= tls.push(Seq::<char>::empty()));
    lemma_join_lines_snoc(tls, Seq::<char>::empty());
    assert(join_lines(kept2) =~= r + seq!['\n', '\n']);
    assert(is_space('\n'));
    assert(all_space(seq!['\n', '\n']));
    lemma_trim_end_concat(r, seq!['\n', '\n']);
    lemma_trim_end_all_space(seq!['\n', '\n']);
    assert(trim_end_spec(retained_spec(out)) == trim_end_spec(r));
}

/// The empty line carries neither sentinel.
proof fn lemma_empty_line_clean()
    ensures
        line_clean(Seq::<char>::empty()),
{
    reveal_strlit("# MINDFULBLOCK_START");
    reveal_strlit("# MINDFULBLOCK_END");
    assert(start_marker().len() == 20);
    assert(end_marker().len() == 18);
}

/// With nothing retained, the fresh output trims back to nothing.
#[verifier::rlimit(100)]
proof fn lemma_idem_empty(region: Seq<char>, region_lines: Seq<Seq<char>>)
    requires
        lines_spec(region) == region_lines,
        keep_lines(region_lines, false) == seq![Seq::<char>::empty()],
        block_state(region_lines, false) == false,
    ensures
        trim_end_spec(retained_spec(seq!['\n'] + region)) == Seq::<char>::empty(),
{
    let out = seq!['\n'] + region;
    lemma_empty_line_clean();
    let p_blank = seq!['\n'];
    assert(p_blank[0] == '\n');
    lemma_find_nl_at(p_blank, 0);
    assert(p_blank.subrange(0, 0) =~= Seq::<char>::empty());
    assert(p_blank.subrange(1, 1) =~= Seq::<char>::empty());
    assert(lines_spec(p_blank.subrange(1, 1)) == Seq::<Seq<char>>::empty());
    assert(lines_spec(p_blank) =~= seq![Seq::<char>::empty()]);
    assert(p_blank.last() == '\n');
    lemma_lines_concat(p_blank, region);
    assert(lines_spec(out) == seq![Seq::<char>::empty()] + region_lines);
    lemma_keep_single(Seq::<char>::empty(), false);
    lemma_keep_concat(seq![Seq::<char>::empty()], region_lines, false);
    let kept2 = keep_lines(lines_spec(out), false);
    assert(kept2 =~= seq![Seq::<char>::empty()].push(Seq::<char>::empty()));
    lemma_join_lines_snoc(seq![Seq::<char>::empty()], Seq::<char>::empty());
    assert(seq![Seq::<char>::empty()] =~= Seq::<Seq<char>>::empty().push(Seq::<char>::empty()));
    lemma_join_lines_snoc(Seq::<Seq<char>>::empty(), Seq::<char>::empty());
    assert(join_lines(kept2) =~= seq!['\n', '\n']);
    assert(is_space('\n'));
    assert(all_space(join_lines(kept2)));
    lemma_trim_end_all_space(join_lines(kept2));
}

/// Concatenation of character sequences is associative.
proof fn lemma_assoc3(a: Seq<char>, b: Seq<char>, c: Seq<char>)
    ensures
        (a + b) + c == a + (b + c),
{
    assert((a + b) + c =~= a + (b + c));
}

/// The managed suffix, split into the shape the line lemmas use.
proof fn lemma_suffix_shape(rules: Seq<BlockRule>)
    ensures
        managed_suffix(rules) == seq!['\n'] + (seq!['\n'] + (start_marker() + seq!['\n'] + (
        body_spec(rules) + (end_marker() + seq!['\n'])))),
{
    reveal_strlit("\n\n");
    reveal_strlit("\n");
    let n = seq!['\n'];
    let nn = "\n\n"@;
    let s1 = start_marker();
    let e1 = end_marker();
    let body = body_spec(rules);
    assert(nn =~= n + n);
    assert("\n"@ =~= n);
    let x = (nn + s1) + n;
    assert(managed_suffix(rules) == ((x + body) + e1) + n);
    lemma_assoc3(x + body, e1, n);
    lemma_assoc3(x, body, e1 + n);
    lemma_assoc3(nn, s1, n);
    assert(x == nn + (s1 + n));
    lemma_assoc3(nn, s1 + n, body + (e1 + n));
    lemma_assoc3(n, n, (s1 + n) + (body + (e1 + n)));
    assert(managed_suffix(rules) == n + (n + ((s1 + n) + (body + (e1 + n)))));
}

/// Reconciliation is idempotent: running it again over its own output, with
/// the same rules, changes nothing. The one stated premiss on the prior
/// content rules out a retained line that still ends in a carriage return
/// with further retained lines after it (such a line is re-read one carriage
/// return shorter); the premiss on the rules holds of every body the
/// reconciler itself builds.
#[verifier::rlimit(100)]
pub proof fn lemma_reconcile_idempotent(c: Seq<char>, rules: Seq<BlockRule>)
    requires
        uppercase_free(body_spec(rules)),
        mid_cr_free(trim_ls(keep_lines(lines_spec(c), false))),
    ensures
        reconcile_spec(reconcile_spec(c, rules), rules) == reconcile_spec(c, rules),
{
    let ls = keep_lines(lines_spec(c), false);
    let tls = trim_ls(ls);
    let r = trim_end_spec(retained_spec(c));
    lemma_lines_no_nl(c);
    lemma_keep_no_nl(lines_spec(c), false);
    lemma_keep_clean(lines_spec(c), false);
    lemma_trim_ls_entries(ls);
    lemma_trim_join(ls);
    let body = body_spec(rules);
    lemma_body_ends_nl(rules);
    lemma_region_lines(body);
    lemma_region_keep(body);
    lemma_suffix_shape(rules);
    let region = seq!['\n'] + (start_marker() + seq!['\n'] + (body + (end_marker()
        + seq!['\n'])));
    let region_lines = lines_spec(region);
    let out = reconcile_spec(c, rules);
    assert(out == r + managed_suffix(rules));
    assert(managed_suffix(rules) == seq!['\n'] + region);
    if tls.len() == 0 {
        assert(r == Seq::<char>::empty());
        assert(out =~= seq!['\n'] + region);
        lemma_idem_empty(region, region_lines);
        assert(trim_end_spec(retained_spec(out)) == r);
    } else {
        assert(r + seq!['\n'] == join_lines(tls));
        lemma_trim_end_idempotent(retained_spec(c));
        assert forall|k: int| 0 <= k < tls.len() implies !ends_cr(#[trigger] tls[k]) by {
            if k < tls.len() - 1 {
                assert(!ends_cr(tls[k]));
            } else {
                assert(!ends_cr(tls.last()));
            }
        }
        assert(out =~= (r + seq!['\n']) + region);
        lemma_idem_join(tls, r, region, region_lines);
        assert(trim_end_spec(retained_spec(out)) == r);
    }
    assert(reconcile_spec(out, rules) == trim_end_spec(retained_spec(out)) + managed_suffix(rules));
    assert(reconcile_spec(out, rules) == out);
}

/// Region isolation: everything around one managed block survives the scan
/// untouched, and so does everything when no block is there at all.
pub proof fn lemma_region_isolation(
    pre: Seq<Seq<char>>,
    s: Seq<char>,
    mid: Seq<Seq<char>>,
    e: Seq<char>,
    post: Seq<Seq<char>>,
)
    requires
        forall|k: int| 0 <= k < pre.len() ==> line_clean(#[trigger] pre[k]),
        forall|k: int| 0 <= k < mid.len() ==> line_clean(#[trigger] mid[k]),
        forall|k: int| 0 <= k < post.len() ==> line_clean(#[trigger] post[k]),
        is_start_line(s),
        is_end_line(e),
        !is_start_line(e),
    ensures
        keep_lines(pre + (seq![s] + (mid + (seq![e] + post))), false) == pre + post,
        keep_lines(pre + post, false) == pre + post,
{
    lemma_keep_all_clean(pre);
    lemma_keep_all_clean(mid);
    lemma_keep_all_clean(post);
    lemma_keep_single(s, false);
    lemma_keep_single(e, true);
    lemma_keep_concat(seq![e], post, true);
    assert(keep_lines(seq![e] + post, true) =~= post);
    lemma_keep_concat(mid, seq![e] + post, true);
    assert(keep_lines(mid + (seq![e] + post), true) =~= post);
    lemma_keep_concat(seq![s], mid + (seq![e] + post), false);
    assert(keep_lines(seq![s] + (mid + (seq![e] + post)), false) =~= post);
    lemma_keep_concat(pre, seq![s] + (mid + (seq![e] + post)), false);
    assert(keep_lines(pre + (seq![s] + (mid + (seq![e] + post))), false) =~= pre + post);
    lemma_keep_concat(pre, post, false);
    assert(keep_lines(pre + post, false) =~= pre + post);
}

/// Clean-on-exit: an empty rule set writes the managed block empty, the two
/// sentinels with nothing between them, after the same retained content.
pub proof fn lemma_clean_exit(c: Seq<char>)
    ensures
        body_spec(Seq::<BlockRule>::empty()) == Seq::<char>::empty(),
        reconcile_spec(c, Seq::<BlockRule>::empty()) == trim_end_spec(retained_spec(c)) + ("\n\n"@
            + start_marker() + "\n"@ + end_marker() + "\n"@),
{
    assert(reconcile_spec(c, Seq::<BlockRule>::empty()) =~= trim_end_spec(retained_spec(c)) + (
    "\n\n"@ + start_marker() + "\n"@ + end_marker() + "\n"@));
}

/// Mode partition: a rule reaches the hosts-file body only as an active hard
/// rule, and the friction cache only as an active friction rule; dropping any
/// other rule changes nothing on that side.
pub proof fn lemma_rule_partition(rules: Seq<BlockRule>, i: int)
    requires
        0 <= i < rules.len(),
    ensures
        !(rules[i].is_active && rules[i].mode == Mode::Hard) ==> body_spec(rules) == body_spec(
            rules.remove(i),
        ),
        !(rules[i].is_active && rules[i].mode.is_friction_spec()) ==> cache_spec(rules)
            == cache_spec(rules.remove(i)),
    decreases rules.len(),
{
    if i == 0 {
        assert(rules.remove(0) =~= rules.drop_first());
        if !(rules[0].is_active && rules[0].mode == Mode::Hard) {
            assert(rule_entry(rules[0]) == Seq::<char>::empty());
            assert(body_spec(rules) =~= body_spec(rules.drop_first()));
        }
        if !(rules[0].is_active && rules[0].mode.is_friction_spec()) {
            assert(cache_spec(rules) =~= cache_spec(rules.drop_first()));
        }
    } else {
        lemma_rule_partition(rules.drop_first(), i - 1);
        assert(rules.drop_first()[i - 1] == rules[i]);
        assert(rules.remove(i)[0] == rules[0]);
        assert(rules.remove(i).drop_first() =~= rules.drop_first().remove(i - 1));
        if !(rules[i].is_active && rules[i].mode == Mode::Hard) {
            assert(body_spec(rules) =~= body_spec(rules.remove(i)));
        }
        if !(rules[i].is_active && rules[i].mode.is_friction_spec()) {
            assert(cache_spec(rules) =~= cache_spec(rules.remove(i)));
        }
    }
}


} // verus!
