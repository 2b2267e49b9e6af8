//! Patterns made of alternatives `a|b|..`, each a sequence of single char
//! tests: what the parser emits for them, what the optimizer makes of that,
//! and that the program tries the alternatives in turn.

use vstd::prelude::*;
use crate::pattern::compiler::{
    char_chain_end, char_collapse_end, char_tests, collapsed_at, first_test, is_plain_jump, lemma_collapsed_prefix,
    lemma_tests_ops, op_chars, op_err_jump, op_ok_jump, op_unwind_jump, padded_bytes, parsed_tests, sequence_chain_len,
    sequence_chars, spec_fix_jump_collapsed, spec_fix_jump_removed,
    spec_fix_ops_removed, spec_map_op_jumps, test_op, tests_ops, CharTest,
};
use crate::pattern::single_chars::{
    ascii_tests, first_unit_len, lemma_ascii_byte_len, lemma_ascii_char_bytes, lemma_lit_run, lemma_map_test_op,
    lemma_step_test_op, lemma_units_first, lemma_units_len, lit_char, lit_chars, test_passes, tests_match, units,
};
use crate::text::byte_len;
use vstd::utf8::encode_utf8;
use crate::pattern::{match_fuel, run, spec_match, Jump, Length, MatchResult, Op};

verus! {

/// The alternatives that `t` stands for, read from a point where a test
/// must come: that test, then what follows it.
pub open spec fn alt_start(t: Seq<char>) -> Option<Seq<Seq<CharTest>>>
    decreases t.len(), 0int,
{
    if t.len() == 0 {
        None
    } else {
        match first_test(t, 1, t[0]) {
            Some((test, w)) => if 0 <= w && 1 + w <= t.len() {
                match alt_tail(t.skip(1 + w)) {
                    Some(alts) => if alts.len() > 0 {
                        Some(seq![seq![test] + alts[0]] + alts.skip(1))
                    } else {
                        None
                    },
                    None => None,
                }
            } else {
                None
            },
            None => None,
        }
    }
}

/// The alternatives that `t` stands for, read after a test: nothing more,
/// a `|` and the next alternative, or more tests of the same one.
pub open spec fn alt_tail(t: Seq<char>) -> Option<Seq<Seq<CharTest>>>
    decreases t.len(), 1int,
{
    if t.len() == 0 {
        Some(seq![Seq::empty()])
    } else if t[0] == '|' {
        match alt_start(t.skip(1)) {
            Some(alts) => Some(seq![Seq::<CharTest>::empty()] + alts),
            None => None,
        }
    } else {
        alt_start(t)
    }
}

/// The alternatives of a pattern whose alternatives are each a sequence of
/// single char tests of ASCII chars (and `None` for any other pattern).
pub open spec fn alt_tests(t: Seq<char>) -> Option<Seq<Seq<CharTest>>> {
    if t.len() == 0 {
        Some(seq![Seq::empty()])
    } else {
        alt_start(t)
    }
}

/// What the parser emits, from op `b` on, for an alternative that another
/// one follows: the jump to its first test, the reset to the next
/// alternative taken when a test fails, the tests and the jump to the
/// accepting op.
pub open spec fn alt_block(b: int, x: Seq<CharTest>) -> Seq<Op> {
    seq![
        Op::Unwind(Jump((b + 2) as u16), Length(0)),
        Op::Reset(Jump((b + 3 + x.len()) as u16)),
    ] + tests_ops(b + 2, b + 1, x) + seq![Op::Unwind(Jump(1), Length(0))]
}

/// The blocks of the alternatives `xs`, one after the other from op `b`.
pub open spec fn done_blocks(b: int, xs: Seq<Seq<CharTest>>) -> Seq<Op>
    decreases xs.len(),
{
    if xs.len() == 0 {
        Seq::empty()
    } else {
        alt_block(b, xs[0]) + done_blocks(b + 3 + xs[0].len(), xs.skip(1))
    }
}

/// How many ops the blocks of `xs` take.
pub open spec fn done_len(xs: Seq<Seq<CharTest>>) -> int
    decreases xs.len(),
{
    if xs.len() == 0 {
        0
    } else {
        3 + xs[0].len() + done_len(xs.skip(1))
    }
}

/// What the parser emits from op `b` on for the alternatives `alts`: the
/// block of each but the last, then the last one, which fails to the error op.
pub open spec fn parsed_alts(b: int, alts: Seq<Seq<CharTest>>) -> Seq<Op> {
    done_blocks(b, alts.drop_last()) + parsed_tests(b + done_len(alts.drop_last()), alts.last())
}

/// Alternatives read from the text are never none at all.
pub proof fn lemma_alts_nonempty(t: Seq<char>)
    ensures
        alt_start(t) matches Some(a) ==> a.len() >= 1,
        alt_tail(t) matches Some(a) ==> a.len() >= 1,
    decreases t.len(),
{
    if t.len() > 0 {
        lemma_alts_nonempty(t.skip(1));
    }
}

/// Reading the char at `i`, where the rest of the current alternative is
/// `cur` and the alternatives after it are `more`: a `|` ends the current
/// alternative and a test of the next one follows; any other char starts
/// the next test of the current one.
pub proof fn lemma_alt_next(t: Seq<char>, i: int, cur: Seq<CharTest>, more: Seq<Seq<CharTest>>)
    requires
        0 <= i < t.len(),
        alt_tail(t.skip(i)) == Some(seq![cur] + more),
    ensures
        t[i] == '|' ==> {
            &&& cur.len() == 0
            &&& more.len() >= 1
            &&& i + 1 < t.len()
            &&& first_test(t, i + 2, t[i + 1]) matches Some((test, w)) && {
                &&& 0 <= w
                &&& i + 2 + w <= t.len()
                &&& more[0].len() >= 1
                &&& test == more[0][0]
                &&& alt_tail(t.skip(i + 2 + w)) == Some(seq![more[0].skip(1)] + more.skip(1))
            }
        },
        t[i] != '|' ==> (first_test(t, i + 1, t[i]) matches Some((test, w)) && {
            &&& 0 <= w
            &&& i + 1 + w <= t.len()
            &&& cur.len() >= 1
            &&& test == cur[0]
            &&& alt_tail(t.skip(i + 1 + w)) == Some(seq![cur.skip(1)] + more)
        }),
{
    let u = t.skip(i);
    assert(u[0] == t[i]);
    if t[i] == '|' {
        let v = u.skip(1);
        let a = alt_start(v)->0;
        assert(seq![cur] + more == seq![Seq::<CharTest>::empty()] + a);
        assert((seq![cur] + more)[0] == cur);
        assert((seq![cur] + more).skip(1) =~= more);
        assert((seq![Seq::<CharTest>::empty()] + a).skip(1) =~= a);
        assert(more == a);
        assert(v =~= t.skip(i + 1));
        assert(v[0] == t[i + 1]);
        if i + 2 < t.len() {
            assert(v[1] == t[i + 2]);
        }
        assert(first_test(v, 1, v[0]) == first_test(t, i + 2, t[i + 1]));
        let (test, w) = first_test(v, 1, v[0])->0;
        let r = alt_tail(v.skip(1 + w))->0;
        lemma_alts_nonempty(v.skip(1 + w));
        assert(v.skip(1 + w) =~= t.skip(i + 2 + w));
        assert(more[0] == seq![test] + r[0]);
        assert(more[0][0] == test);
        assert(more[0].skip(1) =~= r[0]);
        assert(more.skip(1) =~= r.skip(1));
        assert(r =~= seq![r[0]] + r.skip(1));
    } else {
        assert(alt_tail(u) == alt_start(u));
        if i + 1 < t.len() {
            assert(u[1] == t[i + 1]);
        }
        assert(first_test(u, 1, u[0]) == first_test(t, i + 1, t[i]));
        let (test, w) = first_test(u, 1, u[0])->0;
        let r = alt_tail(u.skip(1 + w))->0;
        lemma_alts_nonempty(u.skip(1 + w));
        assert(u.skip(1 + w) =~= t.skip(i + 1 + w));
        let a = seq![seq![test] + r[0]] + r.skip(1);
        assert(seq![cur] + more == a);
        assert((seq![cur] + more)[0] == cur);
        assert(a[0] == seq![test] + r[0]);
        assert(cur == seq![test] + r[0]);
        assert(cur[0] == test);
        assert(cur.skip(1) =~= r[0]);
        assert((seq![cur] + more).skip(1) =~= more);
        assert(a.skip(1) =~= r.skip(1));
        assert(r =~= seq![r[0]] + r.skip(1));
    }
}

/// A sequence of single char tests is one alternative.
pub proof fn lemma_char_tests_alts(t: Seq<char>)
    requires
        char_tests(t) is Some,
    ensures
        alt_tail(t) == Some(seq![char_tests(t)->0]),
        alt_tests(t) == Some(seq![char_tests(t)->0]),
    decreases t.len(),
{
    if t.len() > 0 {
        let (test, w) = first_test(t, 1, t[0])->0;
        lemma_char_tests_alts(t.skip(1 + w));
        let rest = char_tests(t.skip(1 + w))->0;
        let r = seq![rest];
        assert(r[0] == rest);
        assert(r.skip(1) =~= Seq::<Seq<CharTest>>::empty());
        assert(seq![seq![test] + r[0]] + r.skip(1) =~= seq![char_tests(t)->0]);
    } else {
        assert(char_tests(t)->0 =~= Seq::<CharTest>::empty());
    }
}

/// Adding one more block at the end.
pub proof fn lemma_done_push(b: int, xs: Seq<Seq<CharTest>>, x: Seq<CharTest>)
    ensures
        done_blocks(b, xs.push(x)) == done_blocks(b, xs) + alt_block(b + done_len(xs), x),
        done_len(xs.push(x)) == done_len(xs) + 3 + x.len(),
    decreases xs.len(),
{
    if xs.len() == 0 {
        let e = xs.push(x).skip(1);
        assert(e =~= Seq::<Seq<CharTest>>::empty());
        assert(xs.push(x)[0] == x);
        assert(done_blocks(b + 3 + x.len(), e) =~= Seq::<Op>::empty());
        assert(done_len(e) == 0);
        assert(done_blocks(b, xs) =~= Seq::<Op>::empty());
        assert(done_blocks(b, xs.push(x)) =~= done_blocks(b, xs) + alt_block(b + done_len(xs), x));
    } else {
        lemma_done_push(b + 3 + xs[0].len(), xs.skip(1), x);
        assert(xs.push(x).skip(1) =~= xs.skip(1).push(x));
        assert(xs.push(x)[0] == xs[0]);
        assert(done_blocks(b, xs.push(x)) =~= done_blocks(b, xs) + alt_block(b + done_len(xs), x));
    }
}

/// The blocks take as many ops as `done_len` counts.
pub proof fn lemma_done_len(b: int, xs: Seq<Seq<CharTest>>)
    ensures
        done_blocks(b, xs).len() == done_len(xs),
        done_len(xs) >= 0,
    decreases xs.len(),
{
    if xs.len() > 0 {
        lemma_done_len(b + 3 + xs[0].len(), xs.skip(1));
        lemma_tests_ops(b + 2, b + 1, xs[0]);
    }
}

/// The parsed ops of the alternatives: the first block, then the rest.
pub proof fn lemma_parsed_alts_front(b: int, xs: Seq<Seq<CharTest>>)
    requires
        xs.len() >= 1,
    ensures
        xs.len() == 1 ==> parsed_alts(b, xs) == parsed_tests(b, xs[0]),
        xs.len() >= 2 ==> parsed_alts(b, xs) == alt_block(b, xs[0]) + parsed_alts(b + 3 + xs[0].len(), xs.skip(1)),
        parsed_alts(b, xs).len() == done_len(xs.drop_last()) + 3 + xs.last().len(),
        done_len(xs.drop_last()) >= 0,
{
    lemma_done_len(b, xs.drop_last());
    lemma_tests_ops(b + done_len(xs.drop_last()) + 2, b + done_len(xs.drop_last()) + 1, xs.last());
    if xs.len() == 1 {
        assert(xs.drop_last() =~= Seq::<Seq<CharTest>>::empty());
        assert(xs.last() == xs[0]);
        assert(parsed_alts(b, xs) =~= parsed_tests(b, xs[0]));
    } else {
        let d = xs.drop_last();
        assert(d[0] == xs[0]);
        assert(d.skip(1) =~= xs.skip(1).drop_last());
        assert(xs.skip(1).last() == xs.last());
        assert(parsed_alts(b, xs) =~= alt_block(b, xs[0]) + parsed_alts(b + 3 + xs[0].len(), xs.skip(1)));
    }
}

/// `f` keeps the jumps to the error and accepting ops, and moves every
/// jump from op `lo` on back by `d`.
pub open spec fn shifts(f: spec_fn(Jump) -> Jump, lo: int, d: int) -> bool {
    &&& f(Jump(0)) == Jump(0)
    &&& f(Jump(1)) == Jump(1)
    &&& forall|x: u16| lo <= x ==> #[trigger] f(Jump(x)) == Jump((x - d) as u16)
}

/// Moving the ops of tests back by `d` moves their jumps back by `d`.
proof fn lemma_shift_tests_ops(at: int, erj: int, ts: Seq<CharTest>, f: spec_fn(Jump) -> Jump, d: int)
    requires
        0 <= d,
        1 <= erj - d,
        erj <= at,
        at + ts.len() < 0x10000,
        shifts(f, erj, d),
    ensures
        forall|i: int| 0 <= i < ts.len() ==> spec_map_op_jumps(#[trigger] tests_ops(at, erj, ts)[i], f)
            == tests_ops(at - d, erj - d, ts)[i],
{
    lemma_tests_ops(at, erj, ts);
    lemma_tests_ops(at - d, erj - d, ts);
    assert forall|i: int| 0 <= i < ts.len() implies spec_map_op_jumps(#[trigger] tests_ops(at, erj, ts)[i], f)
        == tests_ops(at - d, erj - d, ts)[i] by {
        let okj = Jump((at + i + 1) as u16);
        let ej = Jump(erj as u16);
        lemma_map_test_op(ts[i], okj, ej, f);
        assert(f(okj) == Jump((at + i + 1 - d) as u16));
        assert(f(ej) == Jump((erj - d) as u16));
    }
}

/// Moving the parsed ops of alternatives back by `d` moves all their
/// jumps, but those to the error and accepting ops, back by `d`.
pub proof fn lemma_shift_alts(b: int, xs: Seq<Seq<CharTest>>, f: spec_fn(Jump) -> Jump, d: int)
    requires
        xs.len() >= 1,
        0 <= d,
        2 <= b - d,
        shifts(f, b + 1, d),
        b + parsed_alts(b, xs).len() < 0x10000,
    ensures
        parsed_alts(b - d, xs).len() == parsed_alts(b, xs).len(),
        forall|k: int| 0 <= k < parsed_alts(b, xs).len() ==> spec_map_op_jumps(#[trigger] parsed_alts(b, xs)[k], f)
            == parsed_alts(b - d, xs)[k],
    decreases xs.len(),
{
    lemma_parsed_alts_front(b, xs);
    lemma_parsed_alts_front(b - d, xs);
    let x = xs[0];
    let n = x.len() as int;
    lemma_tests_ops(b + 2, b + 1, x);
    lemma_tests_ops(b - d + 2, b - d + 1, x);
    let p = parsed_alts(b, xs);
    assert(p.len() >= 3 + n) by {
        if xs.len() == 1 {
            assert(xs.last() == x);
        }
    }
    lemma_shift_tests_ops(b + 2, b + 1, x, f, d);
    let q = parsed_alts(b - d, xs);
    assert(f(Jump((b + 2) as u16)) == Jump((b + 2 - d) as u16));
    if xs.len() == 1 {
        assert forall|k: int| 0 <= k < p.len() implies spec_map_op_jumps(#[trigger] p[k], f) == q[k] by {
            if 2 <= k < 2 + n {
                assert(p[k] == tests_ops(b + 2, b + 1, x)[k - 2]);
                assert(q[k] == tests_ops(b - d + 2, b - d + 1, x)[k - 2]);
            }
        }
    } else {
        let b2 = b + 3 + n;
        let rest = xs.skip(1);
        lemma_parsed_alts_front(b2, rest);
        assert(rest.drop_last() =~= xs.drop_last().skip(1));
        assert(xs.drop_last()[0] == x);
        lemma_shift_alts(b2, rest, f, d);
        assert(b2 - d == b - d + 3 + n);
        assert(f(Jump(b2 as u16)) == Jump((b2 - d) as u16));
        assert forall|k: int| 0 <= k < p.len() implies spec_map_op_jumps(#[trigger] p[k], f) == q[k] by {
            if 2 <= k < 2 + n {
                assert(p[k] == tests_ops(b + 2, b + 1, x)[k - 2]);
                assert(q[k] == tests_ops(b - d + 2, b - d + 1, x)[k - 2]);
            } else if k >= 3 + n {
                assert(p[k] == parsed_alts(b2, rest)[k - (3 + n)]);
                assert(q[k] == parsed_alts(b2 - d, rest)[k - (3 + n)]);
            }
        }
    }
}

/// The op of the unit `u` (as in [`is_unit_op`]) that goes to op `okj`
/// when it passes and to op `e` otherwise.
pub open spec fn is_unit_op_to(op: Op, u: Seq<CharTest>, okj: int, e: int) -> bool {
    if u.len() == 1 {
        op == test_op(u[0], Jump(okj as u16), Jump(e as u16))
    } else {
        op matches Op::String(o, er, l, b) && o == Jump(okj as u16) && er == Jump(e as u16) && l as int == encode_utf8(
            lit_chars(u),
        ).len() && b@ == padded_bytes(encode_utf8(lit_chars(u)))
    }
}

/// From op `at` on, the ops of the units of `ts`, each going on to the
/// next, the last to the accepting op, all failing to op `e`.
pub open spec fn units_at(ops: Seq<Op>, at: int, ts: Seq<CharTest>, e: int) -> bool {
    let us = units(ts);
    &&& 0 <= at
    &&& at + us.len() <= ops.len()
    &&& forall|k: int| 0 <= k < us.len() ==> is_unit_op_to(
        #[trigger] ops[at + k],
        us[k],
        if k + 1 == us.len() { 1 } else { at + k + 1 },
        e,
    )
}

/// How many ops the optimized blocks of `xs` take, each led by its reset.
pub open spec fn fin_len(xs: Seq<Seq<CharTest>>) -> int
    decreases xs.len(),
{
    if xs.len() == 0 {
        0
    } else {
        1 + units(xs[0]).len() + fin_len(xs.skip(1))
    }
}

/// From op `at` on, the optimized blocks of the alternatives `xs`: a reset
/// to the first unit of the next block, then the units of the alternative,
/// which fail into that reset; the reset of the last block goes to `tgt`.
pub open spec fn fin_at(ops: Seq<Op>, at: int, xs: Seq<Seq<CharTest>>, tgt: int) -> bool
    decreases xs.len(),
{
    if xs.len() == 0 {
        true
    } else {
        let nxt = at + 1 + units(xs[0]).len();
        &&& 0 <= at < ops.len()
        &&& ops[at] == Op::Reset(Jump((if xs.len() == 1 { tgt } else { nxt + 1 }) as u16))
        &&& units_at(ops, at + 1, xs[0], at)
        &&& fin_at(ops, nxt, xs.skip(1), tgt)
    }
}

/// The program of the alternatives `alts` (two or more): the error op, the
/// accepting op, the blocks of all but the last alternative, then the units
/// of the last one, which fail to the error op.
pub open spec fn is_alts_program(ops: Seq<Op>, alts: Seq<Seq<CharTest>>) -> bool {
    let d = alts.drop_last();
    let fl = 2 + fin_len(d);
    &&& alts.len() >= 2
    &&& ops.len() >= 2
    &&& ops[0] == Op::Error
    &&& ops[1] == Op::Accept
    &&& fin_at(ops, 2, d, fl)
    &&& units_at(ops, fl, alts.last(), 0)
    &&& ops.len() == fl + units(alts.last()).len()
}

/// The program while the optimizer goes through the block of the tests
/// `ts`, whose units start at op `o` and fail to op `e`: the first `done`
/// tests are the units `ud`, the rest still one op per test, the jump to
/// the accepting op closes the block, and the parsed blocks of the
/// alternatives `more` follow. When more follow, the block is led by the
/// reset to them, where its tests fail; else they fail to the error op.
pub open spec fn block_stage(
    ops: Seq<Op>,
    o: int,
    e: int,
    ts: Seq<CharTest>,
    done: int,
    ud: Seq<Seq<CharTest>>,
    more: Seq<Seq<CharTest>>,
) -> bool {
    let c = ud.len() as int;
    let rest = ts.skip(done);
    let close = o + c + rest.len();
    &&& 2 <= o
    &&& ops.len() < 0x10000
    &&& (more.len() == 0 ==> e == 0)
    &&& (more.len() > 0 ==> e == o - 1 && ops[o - 1] == Op::Reset(Jump((close + 1) as u16)))
    &&& 0 <= done <= ts.len()
    &&& c <= done
    &&& units(ts) == ud + units(rest)
    &&& close < ops.len()
    &&& forall|k: int| 0 <= k < c ==> is_unit_op_to(#[trigger] ops[o + k], ud[k], o + 1 + k, e)
    &&& forall|j: int| 0 <= j < rest.len() ==> #[trigger] ops[o + c + j] == test_op(
        rest[j],
        Jump((o + c + j + 1) as u16),
        Jump(e as u16),
    )
    &&& ops[close] == Op::Unwind(Jump(1), Length(0))
    &&& (more.len() == 0 ==> ops.len() == close + 1)
    &&& (more.len() > 0 ==> ops.skip(close + 1) == parsed_alts(close + 1, more))
}

/// Dropping the jump into the first test of a block that more alternatives
/// follow: the block is led by its reset, and the optimizer goes through it.
#[verifier::spinoff_prover]
#[verifier::rlimit(40)]
pub proof fn lemma_enter_block(ops: Seq<Op>, after: Seq<Op>, f: int, xs: Seq<Seq<CharTest>>)
    requires
        2 <= f,
        xs.len() >= 2,
        ops.len() == f + parsed_alts(f, xs).len(),
        ops.len() < 0x10000,
        ops.skip(f) == parsed_alts(f, xs),
        after == spec_fix_ops_removed(ops.remove(f), f, Jump((f + 1) as u16)),
    ensures
        ops[f] == Op::Unwind(Jump((f + 2) as u16), Length(0)),
        block_stage(after, f + 1, f, xs[0], 0, Seq::empty(), xs.skip(1)),
        forall|k: int| 0 <= k < f ==> after[k] == spec_map_op_jumps(
            #[trigger] ops[k],
            |j: Jump| spec_fix_jump_removed(j, f, Jump((f + 1) as u16)),
        ),
{
    let x = xs[0];
    let n = x.len() as int;
    let fj = |j: Jump| spec_fix_jump_removed(j, f, Jump((f + 1) as u16));
    lemma_parsed_alts_front(f, xs);
    lemma_tests_ops(f + 2, f + 1, x);
    let b2 = f + 3 + n;
    let rest = xs.skip(1);
    lemma_parsed_alts_front(b2, rest);
    assert(rest.drop_last() =~= xs.drop_last().skip(1));
    assert(xs.drop_last()[0] == x);
    assert(ops[f] == parsed_alts(f, xs)[0]);
    assert forall|k: int| 0 <= k < f implies after[k] == spec_map_op_jumps(#[trigger] ops[k], fj) by {
        assert(ops.remove(f)[k] == ops[k]);
    }
    assert(shifts(fj, b2 + 1, 1));
    lemma_shift_alts(b2, rest, fj, 1);
    let o = f + 1;
    let close = o + n;
    assert(x.skip(0) =~= x);
    assert(units(x) =~= Seq::<Seq<CharTest>>::empty() + units(x.skip(0)));
    assert(after[o - 1] == Op::Reset(Jump((close + 1) as u16))) by {
        assert(ops.remove(f)[f] == ops[f + 1]);
        assert(ops[f + 1] == parsed_alts(f, xs)[1]);
    }
    assert forall|j: int| 0 <= j < x.len() implies #[trigger] after[o + 0 + j] == test_op(
        x.skip(0)[j],
        Jump((o + 0 + j + 1) as u16),
        Jump(f as u16),
    ) by {
        assert(ops.remove(f)[o + j] == ops[f + 2 + j]);
        assert(ops[f + 2 + j] == parsed_alts(f, xs)[2 + j]);
        assert(parsed_alts(f, xs)[2 + j] == tests_ops(f + 2, f + 1, x)[j]);
        lemma_map_test_op(x[j], Jump((f + 2 + j + 1) as u16), Jump((f + 1) as u16), fj);
    }
    assert(after[close] == Op::Unwind(Jump(1), Length(0))) by {
        assert(ops.remove(f)[close] == ops[f + 2 + n]);
        assert(ops[f + 2 + n] == parsed_alts(f, xs)[2 + n]);
    }
    assert(after.skip(close + 1) =~= parsed_alts(close + 1, rest)) by {
        assert forall|k: int| 0 <= k < after.skip(close + 1).len() implies #[trigger] after.skip(close + 1)[k] == parsed_alts(
            close + 1,
            rest,
        )[k] by {
            assert(ops.remove(f)[close + 1 + k] == ops[f + 3 + n + k]);
            assert(ops[f + 3 + n + k] == parsed_alts(f, xs)[3 + n + k]);
            assert(parsed_alts(f, xs)[3 + n + k] == parsed_alts(b2, rest)[k]);
        }
    }
}

/// Dropping the jump into the first test of the last block.
#[verifier::spinoff_prover]
#[verifier::rlimit(40)]
pub proof fn lemma_enter_last(ops: Seq<Op>, after: Seq<Op>, f: int, x: Seq<CharTest>)
    requires
        2 <= f,
        ops.len() == f + 3 + x.len(),
        ops.len() < 0x10000,
        ops.skip(f) == parsed_tests(f, x),
        after == spec_fix_ops_removed(ops.remove(f), f, Jump((f + 1) as u16)),
    ensures
        ops[f] == Op::Unwind(Jump((f + 2) as u16), Length(0)),
        after.len() == f + 2 + x.len(),
        after.skip(f) == seq![Op::Unwind(Jump(0), Length(0))] + tests_ops(f + 1, f, x) + seq![
            Op::Unwind(Jump(1), Length(0)),
        ],
        forall|k: int| 0 <= k < f ==> after[k] == spec_map_op_jumps(
            #[trigger] ops[k],
            |j: Jump| spec_fix_jump_removed(j, f, Jump((f + 1) as u16)),
        ),
{
    let n = x.len() as int;
    let fj = |j: Jump| spec_fix_jump_removed(j, f, Jump((f + 1) as u16));
    lemma_tests_ops(f + 2, f + 1, x);
    lemma_tests_ops(f + 1, f, x);
    assert(ops[f] == parsed_tests(f, x)[0]);
    assert forall|k: int| 0 <= k < f implies after[k] == spec_map_op_jumps(#[trigger] ops[k], fj) by {
        assert(ops.remove(f)[k] == ops[k]);
    }
    let want = seq![Op::Unwind(Jump(0), Length(0))] + tests_ops(f + 1, f, x) + seq![Op::Unwind(Jump(1), Length(0))];
    assert forall|k: int| 0 <= k < want.len() implies after.skip(f)[k] == want[k] by {
        assert(ops.remove(f)[f + k] == ops[f + 1 + k]);
        assert(ops[f + 1 + k] == parsed_tests(f, x)[1 + k]);
        if 1 <= k <= n {
            assert(parsed_tests(f, x)[1 + k] == tests_ops(f + 2, f + 1, x)[k - 1]);
            assert(want[k] == tests_ops(f + 1, f, x)[k - 1]);
            lemma_map_test_op(x[k - 1], Jump((f + 2 + (k - 1) + 1) as u16), Jump((f + 1) as u16), fj);
        }
    }
    assert(after.skip(f) =~= want);
}

/// Dropping the jump of the last block to the error op: its tests now fail
/// to the error op, and the optimizer goes through it.
#[verifier::spinoff_prover]
#[verifier::rlimit(40)]
pub proof fn lemma_enter_last_tests(ops: Seq<Op>, after: Seq<Op>, f: int, x: Seq<CharTest>)
    requires
        2 <= f,
        ops.len() == f + 2 + x.len(),
        ops.len() < 0x10000,
        ops.skip(f) == seq![Op::Unwind(Jump(0), Length(0))] + tests_ops(f + 1, f, x) + seq![
            Op::Unwind(Jump(1), Length(0)),
        ],
        after == spec_fix_ops_removed(ops.remove(f), f, Jump(0)),
    ensures
        ops[f] == Op::Unwind(Jump(0), Length(0)),
        block_stage(after, f, 0, x, 0, Seq::empty(), Seq::empty()),
        forall|k: int| 0 <= k < f ==> after[k] == spec_map_op_jumps(
            #[trigger] ops[k],
            |j: Jump| spec_fix_jump_removed(j, f, Jump(0)),
        ),
{
    let n = x.len() as int;
    let fj = |j: Jump| spec_fix_jump_removed(j, f, Jump(0));
    lemma_tests_ops(f + 1, f, x);
    let s = ops.skip(f);
    assert(ops[f] == s[0]);
    assert forall|k: int| 0 <= k < f implies after[k] == spec_map_op_jumps(#[trigger] ops[k], fj) by {
        assert(ops.remove(f)[k] == ops[k]);
    }
    assert(x.skip(0) =~= x);
    assert(units(x) =~= Seq::<Seq<CharTest>>::empty() + units(x.skip(0)));
    assert forall|j: int| 0 <= j < x.len() implies #[trigger] after[f + 0 + j] == test_op(
        x.skip(0)[j],
        Jump((f + 0 + j + 1) as u16),
        Jump(0 as u16),
    ) by {
        assert(ops.remove(f)[f + j] == ops[f + 1 + j]);
        assert(ops[f + 1 + j] == s[1 + j]);
        assert(s[1 + j] == tests_ops(f + 1, f, x)[j]);
        lemma_map_test_op(x[j], Jump((f + 1 + j + 1) as u16), Jump(f as u16), fj);
    }
    assert(after[f + n] == Op::Unwind(Jump(1), Length(0))) by {
        assert(ops.remove(f)[f + n] == ops[f + 1 + n]);
        assert(ops[f + 1 + n] == s[1 + n]);
    }
}

/// The chain of char ops from op `k`, `k - i` chars after the first one at
/// `i`, ends after the first unit.
proof fn lemma_block_chain_end(
    ops: Seq<Op>,
    o: int,
    e: int,
    ts: Seq<CharTest>,
    done: int,
    ud: Seq<Seq<CharTest>>,
    more: Seq<Seq<CharTest>>,
    m: int,
    k: int,
)
    requires
        ascii_tests(ts),
        block_stage(ops, o, e, ts, done, ud, more),
        done < ts.len(),
        m == first_unit_len(ts.skip(done)),
        m >= 2,
        o + ud.len() as int + 1 <= k <= o + ud.len() as int + m,
    ensures
        char_chain_end(ops, k, Jump(e as u16), k - (o + ud.len() as int)) == o + ud.len() as int + m,
    decreases o + ud.len() as int + m - k,
{
    let c = ud.len() as int;
    let i = o + c;
    let rest = ts.skip(done);
    let close = o + c + rest.len();
    lemma_units_first(rest);
    if k < i + m {
        let j = k - i;
        assert(ops[o + c + j] == test_op(rest[j], Jump((o + c + j + 1) as u16), Jump(e as u16)));
        assert(rest[j] is Lit);
        assert(rest[j] == ts[done + j]);
        lemma_ascii_char_bytes(lit_char(ts[done + j]));
        lemma_block_chain_end(ops, o, e, ts, done, ud, more, m, k + 1);
    } else if k < close {
        let j = k - i;
        assert(ops[o + c + j] == test_op(rest[j], Jump((o + c + j + 1) as u16), Jump(e as u16)));
        if m < 10 {
            assert(!(rest[j] is Lit));
        } else {
            if let CharTest::Lit(x) = rest[j] {
                assert(rest[j] == ts[done + j]);
                assert(lit_char(ts[done + j]) == x);
                lemma_ascii_char_bytes(x);
            }
        }
    }
}

/// Collapsing the next run of char tests of a block into a string test:
/// where the chain ends, what it tests, and that the program it gives is
/// the next stage.
#[verifier::spinoff_prover]
#[verifier::rlimit(40)]
pub proof fn lemma_block_collapse(
    ops: Seq<Op>,
    after: Seq<Op>,
    o: int,
    e: int,
    ts: Seq<CharTest>,
    done: int,
    ud: Seq<Seq<CharTest>>,
    more: Seq<Seq<CharTest>>,
)
    requires
        ascii_tests(ts),
        block_stage(ops, o, e, ts, done, ud, more),
        done < ts.len(),
        first_unit_len(ts.skip(done)) >= 2,
    ensures
        ({
            let i = o + ud.len() as int;
            let m = first_unit_len(ts.skip(done));
            let u = ts.skip(done).take(m);
            &&& ops[i] is Char
            &&& char_collapse_end(ops, i) == i + m
            &&& op_chars(ops, i, i + m) == lit_chars(u)
            &&& byte_len(lit_chars(u)) == m
            &&& (collapsed_at(
                ops,
                after,
                i,
                i + m,
                op_ok_jump(ops[i + m - 1]),
                op_err_jump(ops[i]),
                encode_utf8(lit_chars(u)),
                (m - 1) as u16,
            ) ==> block_stage(after, o, e, ts, done + m, ud.push(u), more))
        }),
{
    let c = ud.len() as int;
    let i = o + c;
    let rest = ts.skip(done);
    let m = first_unit_len(rest);
    let u = rest.take(m);
    let close = o + c + rest.len();
    lemma_units_first(rest);
    assert(ops[o + c + 0] == test_op(rest[0], Jump((o + c + 0 + 1) as u16), Jump(e as u16)));
    assert(rest[0] is Lit);
    assert(rest[0] == ts[done]);
    lemma_ascii_char_bytes(lit_char(ts[done]));
    lemma_block_chain_end(ops, o, e, ts, done, ud, more, m, i + 1);
    assert forall|x: int| 0 <= x < m implies #[trigger] op_chars(ops, i, i + m)[x] == lit_chars(u)[x] by {
        assert(ops[o + c + x] == test_op(rest[x], Jump((o + c + x + 1) as u16), Jump(e as u16)));
        assert(rest[x] is Lit);
    }
    assert(op_chars(ops, i, i + m) =~= lit_chars(u));
    assert forall|x: int| 0 <= x < lit_chars(u).len() implies (#[trigger] lit_chars(u)[x] as u32) < 0x80 by {
        assert(u[x] == ts[done + x]);
    }
    lemma_ascii_byte_len(lit_chars(u));
    let fix = (m - 1) as u16;
    if collapsed_at(ops, after, i, i + m, op_ok_jump(ops[i + m - 1]), op_err_jump(ops[i]), encode_utf8(lit_chars(u)), fix) {
        let fc = |j: Jump| spec_fix_jump_collapsed(j, i, fix);
        let kept = ops.take(i + 1) + ops.skip(i + m);
        let ud2 = ud.push(u);
        let rest2 = ts.skip(done + m);
        let close2 = close - (m - 1);
        assert(rest.skip(m) =~= rest2);
        assert(units(ts) =~= ud2 + units(rest2));
        assert(ops[o + c + (m - 1)] == test_op(rest[m - 1], Jump((o + c + (m - 1) + 1) as u16), Jump(e as u16)));
        assert(rest[m - 1] is Lit);
        assert(op_ok_jump(ops[i + m - 1]) == Jump((i + m) as u16));
        assert(op_err_jump(ops[i]) == Jump(e as u16));
        assert(fc(Jump((i + m) as u16)) == Jump((i + 1) as u16));
        assert(fc(Jump(e as u16)) == Jump(e as u16));
        assert forall|k: int| 0 <= k < ud2.len() implies is_unit_op_to(#[trigger] after[o + k], ud2[k], o + 1 + k, e) by {
            if k < c {
                assert(kept[o + k] == ops[o + k]);
                assert(is_unit_op_to(ops[o + k], ud[k], o + 1 + k, e));
                if ud[k].len() == 1 {
                    lemma_map_test_op(ud[k][0], Jump((o + 1 + k) as u16), Jump(e as u16), fc);
                }
            }
        }
        assert forall|j: int| 0 <= j < rest2.len() implies #[trigger] after[o + ud2.len() as int + j] == test_op(
            rest2[j],
            Jump((o + ud2.len() as int + j + 1) as u16),
            Jump(e as u16),
        ) by {
            assert(kept[o + ud2.len() as int + j] == ops[o + c + (m + j)]);
            assert(ops[o + c + (m + j)] == test_op(rest[m + j], Jump((o + c + (m + j) + 1) as u16), Jump(e as u16)));
            assert(rest2[j] == rest[m + j]);
            lemma_map_test_op(rest[m + j], Jump((o + c + (m + j) + 1) as u16), Jump(e as u16), fc);
        }
        assert(kept[close2] == ops[close]);
        if more.len() > 0 {
            assert(kept[o - 1] == ops[o - 1]);
            assert(fc(Jump((close + 1) as u16)) == Jump((close2 + 1) as u16));
            assert(shifts(fc, close + 2, m - 1));
            lemma_parsed_alts_front(close + 1, more);
            lemma_shift_alts(close + 1, more, fc, m - 1);
            assert(after.skip(close2 + 1) =~= parsed_alts(close2 + 1, more)) by {
                assert forall|k: int| 0 <= k < after.skip(close2 + 1).len() implies #[trigger] after.skip(close2 + 1)[k]
                    == parsed_alts(close2 + 1, more)[k] by {
                    assert(kept[close2 + 1 + k] == ops[close + 1 + k]);
                    assert(ops[close + 1 + k] == ops.skip(close + 1)[k]);
                }
            }
        }
    }
}

/// A unit of one test keeps its own op: the optimizer leaves it as it is.
#[verifier::spinoff_prover]
#[verifier::rlimit(40)]
pub proof fn lemma_block_single(
    ops: Seq<Op>,
    o: int,
    e: int,
    ts: Seq<CharTest>,
    done: int,
    ud: Seq<Seq<CharTest>>,
    more: Seq<Seq<CharTest>>,
)
    requires
        ascii_tests(ts),
        block_stage(ops, o, e, ts, done, ud, more),
        done < ts.len(),
        first_unit_len(ts.skip(done)) == 1,
    ensures
        ops[o + ud.len() as int] == test_op(ts[done], Jump((o + ud.len() as int + 1) as u16), Jump(e as u16)),
        ops[o + ud.len() as int] is Char ==> char_collapse_end(ops, o + ud.len() as int) == o + ud.len() as int + 1,
        ops[o + ud.len() as int] is Char ==> sequence_chain_len(ops, o + ud.len() as int, 0, 0) == 0,
        block_stage(ops, o, e, ts, done + 1, ud.push(ts.skip(done).take(1)), more),
{
    let c = ud.len() as int;
    let rest = ts.skip(done);
    let close = o + c + rest.len();
    lemma_units_first(rest);
    assert(ops[o + c + 0] == test_op(rest[0], Jump((o + c + 0 + 1) as u16), Jump(e as u16)));
    assert(rest[0] == ts[done]);
    if rest[0] is Lit {
        lemma_ascii_char_bytes(lit_char(ts[done]));
        lemma_lit_run(rest);
        if rest.len() > 1 {
            assert(ops[o + c + 1] == test_op(rest[1], Jump((o + c + 1 + 1) as u16), Jump(e as u16)));
            assert(!(rest[1] is Lit));
        } else {
            assert(ops[close] == Op::Unwind(Jump(1), Length(0)));
        }
    }
    let ud2 = ud.push(rest.take(1));
    let rest2 = ts.skip(done + 1);
    assert(rest.skip(1) =~= rest2);
    assert(units(ts) =~= ud2 + units(rest2));
    assert forall|k: int| 0 <= k < ud2.len() implies is_unit_op_to(#[trigger] ops[o + k], ud2[k], o + 1 + k, e) by {
        if k < c {
            assert(is_unit_op_to(ops[o + k], ud[k], o + 1 + k, e));
        }
    }
    assert forall|j: int| 0 <= j < rest2.len() implies #[trigger] ops[o + ud2.len() as int + j] == test_op(
        rest2[j],
        Jump((o + ud2.len() as int + j + 1) as u16),
        Jump(e as u16),
    ) by {
        assert(ops[o + c + (1 + j)] == test_op(rest[1 + j], Jump((o + c + (1 + j) + 1) as u16), Jump(e as u16)));
        assert(rest2[j] == rest[1 + j]);
    }
}

/// Dropping the jump that closes a block: its last unit goes to the
/// accepting op, the block is done, and the parsed blocks after it move
/// back by one op.
#[verifier::spinoff_prover]
#[verifier::rlimit(40)]
pub proof fn lemma_close_block(
    ops: Seq<Op>,
    after: Seq<Op>,
    o: int,
    e: int,
    ts: Seq<CharTest>,
    ud: Seq<Seq<CharTest>>,
    more: Seq<Seq<CharTest>>,
)
    requires
        ts.len() >= 1,
        block_stage(ops, o, e, ts, ts.len() as int, ud, more),
        after == spec_fix_ops_removed(ops.remove(o + ud.len() as int), o + ud.len() as int, Jump(1)),
    ensures
        ops[o + ud.len() as int] == Op::Unwind(Jump(1), Length(0)),
        ud == units(ts),
        ud.len() >= 1,
        units_at(after, o, ts, e),
        more.len() > 0 ==> after[o - 1] == Op::Reset(Jump((o + ud.len() as int) as u16)),
        more.len() > 0 ==> after.len() == o + ud.len() + parsed_alts(o + ud.len() as int, more).len(),
        more.len() > 0 ==> after.skip(o + ud.len() as int) == parsed_alts(o + ud.len() as int, more),
        more.len() == 0 ==> after.len() == o + ud.len(),
        forall|k: int| 0 <= k < o + ud.len() ==> after[k] == spec_map_op_jumps(
            #[trigger] ops[k],
            |j: Jump| spec_fix_jump_removed(j, o + ud.len() as int, Jump(1)),
        ),
{
    let c = ud.len() as int;
    let close = o + c;
    let fr = |j: Jump| spec_fix_jump_removed(j, close, Jump(1));
    assert(ts.skip(ts.len() as int) =~= Seq::<CharTest>::empty());
    assert(units(ts.skip(ts.len() as int)) =~= Seq::<Seq<CharTest>>::empty());
    assert(ud =~= units(ts));
    lemma_units_first(ts);
    assert forall|k: int| 0 <= k < close implies after[k] == spec_map_op_jumps(#[trigger] ops[k], fr) by {
        assert(ops.remove(close)[k] == ops[k]);
    }
    assert forall|k: int| 0 <= k < c implies is_unit_op_to(
        #[trigger] after[o + k],
        ud[k],
        if k + 1 == c { 1 } else { o + k + 1 },
        e,
    ) by {
        assert(is_unit_op_to(ops[o + k], ud[k], o + 1 + k, e));
        assert(after[o + k] == spec_map_op_jumps(ops[o + k], fr));
        if ud[k].len() == 1 {
            lemma_map_test_op(ud[k][0], Jump((o + 1 + k) as u16), Jump(e as u16), fr);
        }
    }
    if more.len() > 0 {
        assert(after[o - 1] == spec_map_op_jumps(ops[o - 1], fr));
        assert(shifts(fr, close + 2, 1));
        lemma_parsed_alts_front(close + 1, more);
        lemma_shift_alts(close + 1, more, fr, 1);
        assert(after.skip(close) =~= parsed_alts(close, more)) by {
            assert forall|k: int| 0 <= k < after.skip(close).len() implies #[trigger] after.skip(close)[k]
                == parsed_alts(close, more)[k] by {
                assert(ops.remove(close)[close + k] == ops[close + 1 + k]);
                assert(ops[close + 1 + k] == ops.skip(close + 1)[k]);
            }
        }
    }
}

/// Optimized blocks take at least two ops each.
pub proof fn lemma_fin_len(xs: Seq<Seq<CharTest>>)
    requires
        forall|i: int| 0 <= i < xs.len() ==> (#[trigger] xs[i]).len() >= 1,
    ensures
        fin_len(xs) >= 2 * xs.len(),
    decreases xs.len(),
{
    if xs.len() > 0 {
        lemma_units_first(xs[0]);
        assert forall|i: int| 0 <= i < xs.skip(1).len() implies (#[trigger] xs.skip(1)[i]).len() >= 1 by {
            assert(xs.skip(1)[i] == xs[i + 1]);
        }
        lemma_fin_len(xs.skip(1));
    }
}

/// One more optimized block at the end.
pub proof fn lemma_fin_push(ops: Seq<Op>, at: int, xs: Seq<Seq<CharTest>>, x: Seq<CharTest>, tgt: int)
    requires
        0 <= at,
        fin_at(ops, at, xs, at + fin_len(xs) + 1),
        at + fin_len(xs) < ops.len(),
        ops[at + fin_len(xs)] == Op::Reset(Jump(tgt as u16)),
        units_at(ops, at + fin_len(xs) + 1, x, at + fin_len(xs)),
    ensures
        fin_at(ops, at, xs.push(x), tgt),
        fin_len(xs.push(x)) == fin_len(xs) + 1 + units(x).len(),
    decreases xs.len(),
{
    if xs.len() == 0 {
        let ys = xs.push(x);
        assert(ys[0] == x);
        assert(ys.skip(1) =~= Seq::<Seq<CharTest>>::empty());
        assert(fin_len(ys.skip(1)) == 0);
        assert(fin_at(ops, at + 1 + units(x).len(), ys.skip(1), tgt));
    } else {
        let nxt = at + 1 + units(xs[0]).len();
        assert(xs.push(x)[0] == xs[0]);
        assert(xs.push(x).skip(1) =~= xs.skip(1).push(x));
        if xs.len() == 1 {
            assert(xs.skip(1) =~= Seq::<Seq<CharTest>>::empty());
            assert(fin_len(xs.skip(1)) == 0);
        }
        lemma_fin_push(ops, nxt, xs.skip(1), x, tgt);
    }
}

/// Changing the jumps of optimized blocks by a map that keeps every jump
/// before their end, and moves the reset of the last one from `tgt` to
/// `tgt2`.
pub proof fn lemma_fin_map(
    ops: Seq<Op>,
    after: Seq<Op>,
    at: int,
    xs: Seq<Seq<CharTest>>,
    tgt: int,
    tgt2: int,
    f: spec_fn(Jump) -> Jump,
)
    requires
        0 <= at,
        forall|i: int| 0 <= i < xs.len() ==> (#[trigger] xs[i]).len() >= 1,
        fin_at(ops, at, xs, tgt),
        at + fin_len(xs) <= after.len(),
        at + fin_len(xs) < 0x10000,
        forall|k: int| at <= k < at + fin_len(xs) ==> after[k] == spec_map_op_jumps(#[trigger] ops[k], f),
        forall|x: u16| x < at + fin_len(xs) ==> #[trigger] f(Jump(x)) == Jump(x),
        xs.len() > 0 ==> f(Jump(tgt as u16)) == Jump(tgt2 as u16),
    ensures
        fin_at(after, at, xs, tgt2),
    decreases xs.len(),
{
    if xs.len() > 0 {
        let x = xs[0];
        let us = units(x);
        let nxt = at + 1 + us.len();
        lemma_units_first(x);
        assert forall|i: int| 0 <= i < xs.skip(1).len() implies (#[trigger] xs.skip(1)[i]).len() >= 1 by {
            assert(xs.skip(1)[i] == xs[i + 1]);
        }
        lemma_fin_len(xs.skip(1));
        assert(fin_len(xs) == 1 + us.len() + fin_len(xs.skip(1)));
        if xs.len() > 1 {
            assert(f(Jump((nxt + 1) as u16)) == Jump((nxt + 1) as u16));
        }
        assert(after[at] == spec_map_op_jumps(ops[at], f));
        assert forall|k: int| 0 <= k < us.len() implies is_unit_op_to(
            #[trigger] after[at + 1 + k],
            us[k],
            if k + 1 == us.len() { 1 } else { at + 1 + k + 1 },
            at,
        ) by {
            let okj = if k + 1 == us.len() { 1 } else { at + 1 + k + 1 };
            assert(is_unit_op_to(ops[at + 1 + k], us[k], okj, at));
            assert(after[at + 1 + k] == spec_map_op_jumps(ops[at + 1 + k], f));
            assert(f(Jump(okj as u16)) == Jump(okj as u16));
            assert(f(Jump(at as u16)) == Jump(at as u16));
            if us[k].len() == 1 {
                lemma_map_test_op(us[k][0], Jump(okj as u16), Jump(at as u16), f);
            }
        }
        lemma_fin_map(ops, after, nxt, xs.skip(1), tgt, tgt2, f);
    }
}

/// What a pattern of the alternatives `alts` gives on `text`: what the
/// first alternative that matches gives, else no match.
pub open spec fn alts_match(alts: Seq<Seq<CharTest>>, text: Seq<char>) -> MatchResult
    decreases alts.len(),
{
    if alts.len() == 0 {
        MatchResult::Failed
    } else if tests_match(alts[0], text) is Matched {
        tests_match(alts[0], text)
    } else {
        alts_match(alts.skip(1), text)
    }
}

/// Every alternative has a test, and tests ASCII chars only.
pub open spec fn alts_ok(alts: Seq<Seq<CharTest>>) -> bool {
    forall|i: int| 0 <= i < alts.len() ==> (#[trigger] alts[i]).len() >= 1 && ascii_tests(alts[i])
}

/// The alternatives read from a pattern test ASCII chars, and all but the
/// first read after a test have a test.
pub proof fn lemma_alts_read_ok(t: Seq<char>)
    ensures
        alt_start(t) matches Some(a) ==> alts_ok(a),
        alt_tail(t) matches Some(a) ==> a.len() >= 1 && forall|i: int| 0 <= i < a.len() ==> ascii_tests(
            #[trigger] a[i],
        ) && (i >= 1 ==> a[i].len() >= 1),
    decreases t.len(),
{
    lemma_alts_nonempty(t);
    if t.len() > 0 {
        lemma_alts_read_ok(t.skip(1));
        if let Some((test, w)) = first_test(t, 1, t[0]) {
            if 0 <= w && 1 + w <= t.len() {
                lemma_alts_read_ok(t.skip(1 + w));
                if let Some(r) = alt_tail(t.skip(1 + w)) {
                    let a = seq![seq![test] + r[0]] + r.skip(1);
                    assert((lit_char(test) as u32) < 0x80);
                    assert forall|i: int| 0 <= i < a.len() implies (#[trigger] a[i]).len() >= 1 && ascii_tests(a[i]) by {
                        if i == 0 {
                            let h = seq![test] + r[0];
                            assert(ascii_tests(r[0]));
                            assert forall|j: int| 0 <= j < h.len() implies (#[trigger] lit_char(h[j]) as u32) < 0x80 by {
                                if j > 0 {
                                    assert(h[j] == r[0][j - 1]);
                                }
                            }
                        } else {
                            assert(a[i] == r[i]);
                            assert(ascii_tests(r[i]));
                        }
                    }
                }
            }
        }
        if t[0] == '|' {
            if let Some(b) = alt_start(t.skip(1)) {
                let a = seq![Seq::<CharTest>::empty()] + b;
                assert forall|i: int| 0 <= i < a.len() implies ascii_tests(#[trigger] a[i]) && (i >= 1 ==> a[i].len()
                    >= 1) by {
                    if i >= 1 {
                        assert(a[i] == b[i - 1]);
                    } else {
                        assert(a[0] =~= Seq::<CharTest>::empty());
                    }
                }
            }
        }
    }
}

/// The alternatives of a pattern with two or more of them each have a
/// test, and test ASCII chars only.
pub proof fn lemma_alt_tests_ok(t: Seq<char>)
    requires
        alt_tests(t) is Some,
        alt_tests(t)->0.len() >= 2,
    ensures
        alts_ok(alt_tests(t)->0),
{
    lemma_alts_read_ok(t);
}

/// Running the units of the tests `ts` from unit `k` (or from the accepting
/// op after the last unit) at char `p`, where the units from `k` on are
/// those of the tests from `p` on: a match when the tests from `p` on
/// pass, else what the op `e` that they fail to leads to.
proof fn lemma_run_units_to(
    ops: Seq<Op>,
    at: int,
    ts: Seq<CharTest>,
    e: int,
    text: Seq<char>,
    k: int,
    p: int,
    fuel: nat,
    fail: MatchResult,
    bound: nat,
)
    requires
        units_at(ops, at, ts, e),
        ops.len() >= 2,
        ops[1] == Op::Accept,
        ascii_tests(ts),
        ts.len() >= 1,
        ops.len() < 0x10000,
        0 <= k <= units(ts).len(),
        0 <= p <= ts.len(),
        p <= text.len(),
        units(ts.skip(p)) == units(ts).skip(k),
        0 <= e < ops.len(),
        (ops[e] == Op::Error && fail == MatchResult::Failed) || (ops[e] matches Op::Reset(x) && forall|g: nat|
            g >= bound ==> #[trigger] run(ops, text, x.0 as int, 0, g) == fail),
        fuel >= bound + units(ts).len() - k + 3,
    ensures
        run(ops, text, if k == units(ts).len() { 1 } else { at + k }, p, fuel) == if ts.len() <= text.len()
            && forall|j: int| p <= j < ts.len() ==> test_passes(#[trigger] ts[j], text[j]) {
            MatchResult::Matched(byte_len(text.take(ts.len() as int)) as usize)
        } else {
            fail
        },
    decreases units(ts).len() - k,
{
    let us = units(ts);
    let n = ts.len() as int;
    let rest = ts.skip(p);
    lemma_units_len(ts);
    if k == us.len() {
        if rest.len() > 0 {
            lemma_units_first(rest);
            assert(units(rest).len() > 0);
        }
        assert(p == n);
    } else {
        assert(us.skip(k).len() > 0);
        if rest.len() == 0 {
            assert(units(rest) =~= Seq::<Seq<CharTest>>::empty());
        }
        lemma_units_first(rest);
        let m = first_unit_len(rest);
        let u = rest.take(m);
        let next = if k + 1 == us.len() { 1 } else { at + k + 1 };
        assert(us.skip(k)[0] == us[k]);
        assert(us[k] == u);
        assert(rest.skip(m) =~= ts.skip(p + m));
        assert(us.skip(k).skip(1) =~= us.skip(k + 1));
        assert(units(ts.skip(p + m)) == us.skip(k + 1));
        assert(is_unit_op_to(ops[at + k], u, next, e));
        let pass = p + m <= text.len() && forall|j: int| p <= j < p + m ==> test_passes(#[trigger] ts[j], text[j]);
        if m == 1 {
            assert(u[0] == ts[p]);
            lemma_step_test_op(ops, text, at + k, p, ts[p], Jump(next as u16), Jump(e as u16));
            if pass {
                assert(test_passes(ts[p], text[p]));
            }
            if p < text.len() && test_passes(ts[p], text[p]) {
                assert forall|j: int| p <= j < p + m implies test_passes(#[trigger] ts[j], text[j]) by {
                    assert(j == p);
                }
            }
        } else {
            let chars = lit_chars(u);
            assert forall|x: int| 0 <= x < chars.len() implies (#[trigger] chars[x] as u32) < 0x80 by {
                assert(u[x] == ts[p + x]);
            }
            lemma_ascii_byte_len(chars);
            if let Op::String(o, er, l, b) = ops[at + k] {
                assert(b@.len() == 10);
                assert(b@.take(l as int) =~= encode_utf8(chars));
            }
            crate::pattern::lemma_prefix_match_literal(text, p, chars);
            if pass {
                assert(text.subrange(p, p + m) =~= chars) by {
                    assert forall|x: int| 0 <= x < m implies text.subrange(p, p + m)[x] == chars[x] by {
                        assert(test_passes(ts[p + x], text[p + x]));
                        assert(u[x] == ts[p + x]);
                        assert(u[x] is Lit);
                    }
                }
            }
            if p + m <= text.len() && text.subrange(p, p + m) == chars {
                assert forall|j: int| p <= j < p + m implies test_passes(#[trigger] ts[j], text[j]) by {
                    assert(text.subrange(p, p + m)[j - p] == chars[j - p]);
                    assert(u[j - p] == ts[j]);
                    assert(u[j - p] is Lit);
                }
            }
        }
        if pass {
            lemma_run_units_to(ops, at, ts, e, text, k + 1, p + m, (fuel - 1) as nat, fail, bound);
            if n <= text.len() {
                if forall|j: int| p + m <= j < n ==> test_passes(#[trigger] ts[j], text[j]) {
                    assert forall|j: int| p <= j < n implies test_passes(#[trigger] ts[j], text[j]) by {
                        if j < p + m {
                        }
                    }
                }
            }
        } else {
            if let Op::Reset(x) = ops[e] {
                assert(run(ops, text, x.0 as int, 0, (fuel - 2) as nat) == fail);
            }
            assert(run(ops, text, e, p, (fuel - 1) as nat) == fail);
            if n <= text.len() && forall|j: int| p <= j < n ==> test_passes(#[trigger] ts[j], text[j]) {
                assert forall|j: int| p <= j < p + m implies test_passes(#[trigger] ts[j], text[j]) by {
                }
            }
        }
    }
}

/// Where block `i` of optimized blocks starts, its reset and its units.
pub proof fn lemma_fin_block(ops: Seq<Op>, at: int, xs: Seq<Seq<CharTest>>, tgt: int, i: int)
    requires
        fin_at(ops, at, xs, tgt),
        0 <= i < xs.len(),
    ensures
        ({
            let a = at + fin_len(xs.take(i));
            &&& fin_len(xs.take(i + 1)) == fin_len(xs.take(i)) + 1 + units(xs[i]).len()
            &&& 0 <= a < ops.len()
            &&& ops[a] == Op::Reset(Jump((if i + 1 == xs.len() { tgt } else { at + fin_len(xs.take(i + 1)) + 1 }) as u16))
            &&& units_at(ops, a + 1, xs[i], a)
        }),
    decreases i,
{
    let x0 = xs[0];
    let nxt = at + 1 + units(x0).len();
    if i == 0 {
        assert(xs.take(0) =~= Seq::<Seq<CharTest>>::empty());
        assert(xs.take(1)[0] == x0);
        assert(xs.take(1).skip(1) =~= Seq::<Seq<CharTest>>::empty());
        assert(fin_len(xs.take(1).skip(1)) == 0);
    } else {
        lemma_fin_block(ops, nxt, xs.skip(1), tgt, i - 1);
        assert(xs.take(i)[0] == x0);
        assert(xs.take(i + 1)[0] == x0);
        assert(xs.take(i).skip(1) =~= xs.skip(1).take(i - 1));
        assert(xs.take(i + 1).skip(1) =~= xs.skip(1).take(i));
        assert(xs.skip(1)[i - 1] == xs[i]);
    }
}

/// Where the units of alternative `j` start in the program of `alts`.
pub open spec fn alt_first(alts: Seq<Seq<CharTest>>, j: int) -> int {
    if j + 1 < alts.len() {
        2 + fin_len(alts.take(j)) + 1
    } else {
        2 + fin_len(alts.drop_last())
    }
}

/// Running the program of the alternatives from the first unit of
/// alternative `j` at the start of the text tries the alternatives from
/// `j` on in turn.
proof fn lemma_run_alts(ops: Seq<Op>, alts: Seq<Seq<CharTest>>, j: int, text: Seq<char>, g: nat)
    requires
        is_alts_program(ops, alts),
        alts_ok(alts),
        ops.len() < 0x10000,
        0 <= j < alts.len(),
        g >= (alts.len() - j) * (ops.len() + 4),
    ensures
        run(ops, text, alt_first(alts, j), 0, g) == alts_match(alts.skip(j), text),
    decreases alts.len() - j,
{
    let n = alts.len() as int;
    let d = alts.drop_last();
    let fl = 2 + fin_len(d);
    let x = alts[j];
    lemma_units_len(x);
    lemma_units_first(x);
    assert(x.skip(0) =~= x);
    assert(units(x).skip(0) =~= units(x));
    let s = alts.skip(j);
    assert(s[0] == x);
    assert(alts_ok(alts) ==> x.len() >= 1 && ascii_tests(x));
    if j + 1 == n {
        assert(x == alts.last());
        assert((n - j) * (ops.len() + 4) == ops.len() + 4) by (nonlinear_arith)
            requires
                n - j == 1,
        ;
        lemma_run_units_to(ops, fl, x, 0, text, 0, 0, g, MatchResult::Failed, 0);
        assert(run(ops, text, fl, 0, g) == tests_match(x, text));
        assert(s.skip(1) =~= Seq::<Seq<CharTest>>::empty());
        assert(alts_match(s.skip(1), text) == MatchResult::Failed);
        assert(alt_first(alts, j) == fl);
    } else {
        lemma_fin_block(ops, 2, d, fl, j);
        assert(d[j] == x);
        assert(d.take(j) =~= alts.take(j));
        assert(d.take(j + 1) =~= alts.take(j + 1));
        let a = 2 + fin_len(alts.take(j));
        let next = alt_first(alts, j + 1);
        assert(ops[a] == Op::Reset(Jump(next as u16))) by {
            if j + 2 < n {
                assert(alt_first(alts, j + 1) == 2 + fin_len(alts.take(j + 1)) + 1);
            }
        }
        let bound = ((n - j - 1) * (ops.len() + 4)) as nat;
        assert forall|g2: nat| g2 >= bound implies #[trigger] run(ops, text, next, 0, g2) == alts_match(
            alts.skip(j + 1),
            text,
        ) by {
            lemma_run_alts(ops, alts, j + 1, text, g2);
        }
        assert(next <= ops.len()) by {
            if j + 2 < n {
                lemma_fin_block(ops, 2, d, fl, j + 1);
                assert(d.take(j + 1) =~= alts.take(j + 1));
            }
        }
        assert(g >= bound + ops.len() + 4) by (nonlinear_arith)
            requires
                g >= (n - j) * (ops.len() + 4),
                bound == (n - j - 1) * (ops.len() + 4),
        ;
        lemma_run_units_to(ops, a + 1, x, a, text, 0, 0, g, alts_match(alts.skip(j + 1), text), bound);
        assert(s.skip(1) =~= alts.skip(j + 1));
        assert(alt_first(alts, j) == a + 1);
        assert(run(ops, text, a + 1, 0, g) == if tests_match(x, text) is Matched { tests_match(x, text) } else { alts_match(alts.skip(j + 1), text) });
    }
}

/// The program of two or more alternatives, each a sequence of single char
/// tests, gives what the first alternative that matches gives.
pub proof fn lemma_alts_program_matches(ops: Seq<Op>, alts: Seq<Seq<CharTest>>, text: Seq<char>)
    requires
        is_alts_program(ops, alts),
        alts_ok(alts),
        ops.len() < 0x10000,
    ensures
        spec_match(ops, text, 3) == alts_match(alts, text),
{
    let n = alts.len() as int;
    let d = alts.drop_last();
    lemma_fin_block(ops, 2, d, 2 + fin_len(d), 0);
    assert(alts.take(0) =~= Seq::<Seq<CharTest>>::empty());
    assert(n <= 0x10000) by {
        assert forall|i: int| 0 <= i < d.len() implies (#[trigger] d[i]).len() >= 1 by {
            assert(d[i] == alts[i]);
        }
        lemma_fin_len(d);
    }
    assert(match_fuel() >= n * (ops.len() + 4)) by (nonlinear_arith)
        requires
            n <= 0x10000,
            ops.len() < 0x10000,
            match_fuel() == 0xffff_ffff_ffff_ffffnat,
    ;
    lemma_run_alts(ops, alts, 0, text, match_fuel());
    assert(alts.skip(0) =~= alts);
}

/// Where the optimizer stands in the program of alternatives: at the jump
/// into the block of alternative `j` (phase 0), at the jump of the last
/// block to the error op (phase 1), at the reset leading a block (phase 2),
/// in the tests of a block, `done` of them made the units `ud` (phase 3),
/// or at the end (phase 4).
pub struct AltsState {
    pub phase: int,
    pub j: int,
    pub done: int,
    pub ud: Seq<Seq<CharTest>>,
}

/// Where the block of alternative `j` starts in the optimized program.
pub open spec fn block_at(a: Seq<Seq<CharTest>>, j: int) -> int {
    2 + fin_len(a.take(j))
}

/// Where the units of alternative `j` start: after its reset, but for the last one.
pub open spec fn block_units(a: Seq<Seq<CharTest>>, j: int) -> int {
    if j + 1 == a.len() {
        block_at(a, j)
    } else {
        block_at(a, j) + 1
    }
}

/// Where the tests of alternative `j` fail to: its reset, or the error op
/// for the last one.
pub open spec fn block_fails(a: Seq<Seq<CharTest>>, j: int) -> int {
    if j + 1 == a.len() {
        0
    } else {
        block_at(a, j)
    }
}

/// The program and its start while the optimizer, at op `i`, goes through
/// the program of the alternatives `a`.
pub open spec fn alts_stage(ops: Seq<Op>, s: Jump, i: int, a: Seq<Seq<CharTest>>, st: AltsState) -> bool {
    let j = st.j;
    let f = block_at(a, j);
    let o = block_units(a, j);
    let e = block_fails(a, j);
    &&& alts_ok(a)
    &&& a.len() >= 2
    &&& ops.len() < 0x10000
    &&& ops.len() >= 2
    &&& ops[0] == Op::Error
    &&& ops[1] == Op::Accept
    &&& 0 <= j < a.len()
    &&& 0 <= st.phase <= 4
    &&& (st.phase != 4 ==> 0 <= i < ops.len())
    &&& (st.phase == 0 ==> {
        &&& i <= f
        &&& (j > 0 ==> i == f)
        &&& s == Jump(if j == 0 { 2 } else { 3 })
        &&& fin_at(ops, 2, a.take(j), f)
        &&& ops.len() == f + parsed_alts(f, a.skip(j)).len()
        &&& ops.skip(f) == parsed_alts(f, a.skip(j))
    })
    &&& (st.phase == 1 ==> {
        &&& j + 1 == a.len()
        &&& i == f
        &&& s == Jump(3)
        &&& fin_at(ops, 2, a.take(j), f + 1)
        &&& ops.len() == f + 2 + a[j].len()
        &&& ops.skip(f) == seq![Op::Unwind(Jump(0), Length(0))] + tests_ops(f + 1, f, a[j]) + seq![
            Op::Unwind(Jump(1), Length(0)),
        ]
    })
    &&& (st.phase == 2 ==> {
        &&& j + 1 < a.len()
        &&& i == f
        &&& s == Jump(3)
        &&& st.done == 0
        &&& st.ud.len() == 0
        &&& fin_at(ops, 2, a.take(j), o)
        &&& block_stage(ops, o, e, a[j], st.done, st.ud, a.skip(j + 1))
    })
    &&& (st.phase == 3 ==> {
        &&& i == o + st.ud.len()
        &&& s == Jump(3)
        &&& fin_at(ops, 2, a.take(j), o)
        &&& block_stage(ops, o, e, a[j], st.done, st.ud, a.skip(j + 1))
    })
    &&& (st.phase == 4 ==> i == ops.len() && s == Jump(3) && is_alts_program(ops, a))
}

/// The parsed program of the alternatives is where the optimizer starts.
pub proof fn lemma_alts_stage_start(ops: Seq<Op>, a: Seq<Seq<CharTest>>)
    requires
        alts_ok(a),
        a.len() >= 2,
        ops == seq![Op::Error, Op::Accept] + parsed_alts(2, a),
        ops.len() < 0x10000,
    ensures
        alts_stage(ops, Jump(2), 0, a, AltsState { phase: 0, j: 0, done: 0, ud: Seq::empty() }),
{
    assert(a.take(0) =~= Seq::<Seq<CharTest>>::empty());
    assert(fin_len(a.take(0)) == 0);
    assert(block_at(a, 0) == 2);
    assert(a.skip(0) =~= a);
    assert(ops.skip(2) =~= parsed_alts(2, a));
    lemma_parsed_alts_front(2, a);
    assert(ops[0] == Op::Error);
    assert(ops[1] == Op::Accept);
}

/// The tests of each alternative but the last have a test: their blocks
/// take two ops or more, so block `j` starts at op `2 + 2 * j` or later.
proof fn lemma_block_at(a: Seq<Seq<CharTest>>, j: int)
    requires
        alts_ok(a),
        0 <= j <= a.len(),
    ensures
        block_at(a, j) >= 2 + 2 * j,
        forall|i: int| 0 <= i < a.take(j).len() ==> (#[trigger] a.take(j)[i]).len() >= 1,
{
    assert forall|i: int| 0 <= i < a.take(j).len() implies (#[trigger] a.take(j)[i]).len() >= 1 by {
        assert(a.take(j)[i] == a[i]);
    }
    lemma_fin_len(a.take(j));
}

/// The requirements shared by the steps that drop a plain jump.
pub open spec fn unwind_step(
    before: Seq<Op>,
    after: Seq<Op>,
    sb: Jump,
    sa: Jump,
    i: int,
    jump: Jump,
) -> bool {
    let removed = if jump.0 > i { Jump((jump.0 - 1) as u16) } else { jump };
    &&& 0 <= i < before.len()
    &&& before[i] == Op::Unwind(jump, Length(0))
    &&& after == spec_fix_ops_removed(before.remove(i), i, removed)
    &&& sa == spec_fix_jump_removed(sb, i, removed)
}

/// The error and accepting ops stay where they are.
proof fn lemma_unwind_keeps_stops(before: Seq<Op>, after: Seq<Op>, sb: Jump, sa: Jump, i: int, jump: Jump)
    requires
        unwind_step(before, after, sb, sa, i, jump),
        2 <= i,
        before[0] == Op::Error,
        before[1] == Op::Accept,
    ensures
        after[0] == Op::Error,
        after[1] == Op::Accept,
        after.len() == before.len() - 1,
{
    assert(before.remove(i)[0] == before[0]);
    assert(before.remove(i)[1] == before[1]);
}

/// Dropping the jump into the first test of a block.
#[verifier::spinoff_prover]
#[verifier::rlimit(40)]
proof fn lemma_alts_enter_step(
    before: Seq<Op>,
    after: Seq<Op>,
    sb: Jump,
    sa: Jump,
    i: int,
    jump: Jump,
    a: Seq<Seq<CharTest>>,
    st: AltsState,
) -> (st2: AltsState)
    requires
        alts_stage(before, sb, i, a, st),
        st.phase == 0,
        unwind_step(before, after, sb, sa, i, jump),
    ensures
        alts_stage(after, sa, i, a, st2),
{
    let j = st.j;
    let n = a.len() as int;
    let f = block_at(a, j);
    let x = a[j];
    let removed = if jump.0 > i { Jump((jump.0 - 1) as u16) } else { jump };
    let fr = |q: Jump| spec_fix_jump_removed(q, i, removed);
    lemma_block_at(a, j);
    assert(i == f) by {
        if i < f {
            assert(i < 2);
            assert(before[i] is Error || before[i] is Accept);
        }
    }
    lemma_unwind_keeps_stops(before, after, sb, sa, i, jump);
    lemma_parsed_alts_front(f, a.skip(j));
    assert(a.skip(j)[0] == x);
    assert(before[f] == parsed_alts(f, a.skip(j))[0]);
    if j + 1 < n {
        assert(before[f] == Op::Unwind(Jump((f + 2) as u16), Length(0)));
        assert(removed == Jump((f + 1) as u16));
        lemma_enter_block(before, after, f, a.skip(j));
        assert(a.skip(j).skip(1) =~= a.skip(j + 1));
        lemma_fin_map(before, after, 2, a.take(j), f, f + 1, fr);
        AltsState { phase: 2, j: j, done: 0, ud: Seq::empty() }
    } else {
        assert(a.skip(j) =~= seq![x]);
        assert(before[f] == Op::Unwind(Jump((f + 2) as u16), Length(0)));
        assert(removed == Jump((f + 1) as u16));
        lemma_enter_last(before, after, f, x);
        lemma_fin_map(before, after, 2, a.take(j), f, f + 1, fr);
        AltsState { phase: 1, j: j, done: 0, ud: Seq::empty() }
    }
}

/// Dropping the jump of the last block to the error op.
proof fn lemma_alts_last_step(
    before: Seq<Op>,
    after: Seq<Op>,
    sb: Jump,
    sa: Jump,
    i: int,
    jump: Jump,
    a: Seq<Seq<CharTest>>,
    st: AltsState,
) -> (st2: AltsState)
    requires
        alts_stage(before, sb, i, a, st),
        st.phase == 1,
        unwind_step(before, after, sb, sa, i, jump),
    ensures
        alts_stage(after, sa, i, a, st2),
{
    let j = st.j;
    let f = block_at(a, j);
    let x = a[j];
    let removed = if jump.0 > i { Jump((jump.0 - 1) as u16) } else { jump };
    let fr = |q: Jump| spec_fix_jump_removed(q, i, removed);
    lemma_block_at(a, j);
    lemma_unwind_keeps_stops(before, after, sb, sa, i, jump);
    assert(before[f] == before.skip(f)[0]);
    assert(removed == Jump(0));
    lemma_enter_last_tests(before, after, f, x);
    assert(a.skip(j + 1) =~= Seq::<Seq<CharTest>>::empty());
    lemma_fin_map(before, after, 2, a.take(j), f + 1, f, fr);
    AltsState { phase: 3, j: j, done: 0, ud: Seq::empty() }
}

/// Dropping the jump that closes a block.
#[verifier::spinoff_prover]
#[verifier::rlimit(40)]
proof fn lemma_alts_close_step(
    before: Seq<Op>,
    after: Seq<Op>,
    sb: Jump,
    sa: Jump,
    i: int,
    jump: Jump,
    a: Seq<Seq<CharTest>>,
    st: AltsState,
) -> (st2: AltsState)
    requires
        alts_stage(before, sb, i, a, st),
        st.phase == 3,
        unwind_step(before, after, sb, sa, i, jump),
    ensures
        alts_stage(after, sa, i, a, st2),
{
    let j = st.j;
    let n = a.len() as int;
    let o = block_units(a, j);
    let e = block_fails(a, j);
    let x = a[j];
    let removed = if jump.0 > i { Jump((jump.0 - 1) as u16) } else { jump };
    let fr = |q: Jump| spec_fix_jump_removed(q, i, removed);
    lemma_block_at(a, j);
    lemma_unwind_keeps_stops(before, after, sb, sa, i, jump);
    let more = a.skip(j + 1);
    let rest = x.skip(st.done);
    if st.done < x.len() {
        assert(before[o + st.ud.len() + 0] == test_op(rest[0], Jump((o + st.ud.len() + 0 + 1) as u16), Jump(e as u16)));
        assert(false);
    }
    assert(rest.len() == 0);
    assert(removed == Jump(1));
    lemma_close_block(before, after, o, e, x, st.ud, more);
    lemma_fin_map(before, after, 2, a.take(j), o, o, fr);
    let close = o + st.ud.len();
    if j + 1 < n {
        lemma_fin_push(after, 2, a.take(j), x, close);
        assert(a.take(j).push(x) =~= a.take(j + 1));
        AltsState { phase: 0, j: j + 1, done: 0, ud: Seq::empty() }
    } else {
        assert(a.drop_last() =~= a.take(j));
        assert(a.last() == x);
        AltsState { phase: 4, j: j, done: 0, ud: Seq::empty() }
    }
}

/// Dropping a plain jump keeps the optimizer on the program of the alternatives.
pub proof fn lemma_alts_unwind_step(
    before: Seq<Op>,
    after: Seq<Op>,
    sb: Jump,
    sa: Jump,
    i: int,
    jump: Jump,
    a: Seq<Seq<CharTest>>,
    st: AltsState,
) -> (st2: AltsState)
    requires
        alts_stage(before, sb, i, a, st),
        unwind_step(before, after, sb, sa, i, jump),
    ensures
        alts_stage(after, sa, i, a, st2),
{
    if st.phase == 0 {
        lemma_alts_enter_step(before, after, sb, sa, i, jump, a, st)
    } else if st.phase == 1 {
        lemma_alts_last_step(before, after, sb, sa, i, jump, a, st)
    } else if st.phase == 3 {
        lemma_alts_close_step(before, after, sb, sa, i, jump, a, st)
    } else {
        let o = block_units(a, st.j);
        assert(st.phase == 2);
        assert(before[o - 1] == Op::Reset(Jump((o + a[st.j].len() + 1) as u16)));
        st
    }
}

/// Block `j` starts at op 2 or later, and its units at op 3 or later.
proof fn lemma_block_units(a: Seq<Seq<CharTest>>, j: int)
    requires
        alts_ok(a),
        a.len() >= 2,
        0 <= j < a.len(),
    ensures
        block_units(a, j) >= 3,
        block_units(a, j) >= block_at(a, j),
        block_fails(a, j) < block_units(a, j),
{
    lemma_block_at(a, j);
}

/// Going through a char test keeps the optimizer on the program of the
/// alternatives.
#[verifier::spinoff_prover]
#[verifier::rlimit(40)]
pub proof fn lemma_alts_char_step(
    before: Seq<Op>,
    after: Seq<Op>,
    sb: Jump,
    sa: Jump,
    i: int,
    a: Seq<Seq<CharTest>>,
    st: AltsState,
    collapsed: bool,
) -> (st2: AltsState)
    requires
        alts_stage(before, sb, i, a, st),
        0 <= i < before.len(),
        before[i] is Char,
        collapsed == (char_collapse_end(before, i) > i + 1),
        collapsed ==> ({
            let to = char_collapse_end(before, i);
            let chars = op_chars(before, i, to);
            let fix = (byte_len(chars) - 1) as u16;
            &&& collapsed_at(before, after, i, to, op_ok_jump(before[to - 1]), op_err_jump(before[i]), encode_utf8(chars), fix)
            &&& sa == spec_fix_jump_collapsed(sb, i, fix)
        }),
        !collapsed ==> ({
            let n = sequence_chain_len(before, i, 0, 0);
            let to = i + 2 * n;
            let chars = sequence_chars(before, i, n);
            let fix = (2 * n - 1) as u16;
            if n > 1 {
                &&& collapsed_at(before, after, i, to, op_ok_jump(before[to - 2]), op_unwind_jump(before[to - 1]), encode_utf8(chars), fix)
                &&& sa == spec_fix_jump_collapsed(sb, i, fix)
            } else {
                after == before && sa == sb
            }
        }),
    ensures
        alts_stage(after, sa, i + 1, a, st2),
{
    let j = st.j;
    let f = block_at(a, j);
    let o = block_units(a, j);
    let e = block_fails(a, j);
    let x = a[j];
    let more = a.skip(j + 1);
    lemma_block_at(a, j);
    lemma_block_units(a, j);
    assert(x.len() >= 1 && ascii_tests(x));
    if st.phase == 0 {
        if i < f {
            assert(i < 2);
        } else {
            lemma_parsed_alts_front(f, a.skip(j));
            assert(before[f] == parsed_alts(f, a.skip(j))[0]);
        }
        assert(false);
    } else if st.phase == 1 {
        assert(before[f] == before.skip(f)[0]);
        assert(false);
    } else if st.phase == 2 {
        assert(false);
    } else if st.phase == 4 {
        assert(false);
    }
    assert(st.phase == 3);
    let rest = x.skip(st.done);
    if st.done == x.len() {
        assert(rest.len() == 0);
        assert(false);
    }
    let m = first_unit_len(rest);
    if m >= 2 {
        let u = rest.take(m);
        lemma_block_collapse(before, after, o, e, x, st.done, st.ud, more);
        let fc = |q: Jump| spec_fix_jump_collapsed(q, i, (m - 1) as u16);
        lemma_collapsed_prefix(before, after, i, i + m, op_ok_jump(before[i + m - 1]), op_err_jump(before[i]),
            encode_utf8(lit_chars(u)), (m - 1) as u16);
        lemma_fin_map(before, after, 2, a.take(j), o, o, fc);
        AltsState { phase: 3, j: j, done: st.done + m, ud: st.ud.push(u) }
    } else {
        lemma_block_single(before, o, e, x, st.done, st.ud, more);
        AltsState { phase: 3, j: j, done: st.done + 1, ud: st.ud.push(rest.take(1)) }
    }
}

/// Going past any other op keeps the optimizer on the program of the
/// alternatives.
#[verifier::spinoff_prover]
#[verifier::rlimit(40)]
pub proof fn lemma_alts_other_step(ops: Seq<Op>, s: Jump, i: int, a: Seq<Seq<CharTest>>, st: AltsState) -> (st2: AltsState)
    requires
        alts_stage(ops, s, i, a, st),
        0 <= i < ops.len(),
        !(ops[i] is Char),
        !is_plain_jump(ops[i]),
    ensures
        alts_stage(ops, s, i + 1, a, st2),
{
    let j = st.j;
    let f = block_at(a, j);
    let o = block_units(a, j);
    let e = block_fails(a, j);
    let x = a[j];
    let more = a.skip(j + 1);
    lemma_block_at(a, j);
    lemma_block_units(a, j);
    assert(x.len() >= 1 && ascii_tests(x));
    if st.phase == 0 {
        if i == f {
            lemma_parsed_alts_front(f, a.skip(j));
            assert(ops[f] == parsed_alts(f, a.skip(j))[0]);
            assert(false);
        }
        st
    } else if st.phase == 1 {
        assert(ops[f] == ops.skip(f)[0]);
        assert(false);
        st
    } else if st.phase == 2 {
        AltsState { phase: 3, j: j, done: 0, ud: Seq::empty() }
    } else if st.phase == 3 {
        let rest = x.skip(st.done);
        if st.done == x.len() {
            assert(rest.len() == 0);
            assert(false);
        }
        let m = first_unit_len(rest);
        if m >= 2 {
            lemma_block_collapse(ops, ops, o, e, x, st.done, st.ud, more);
            assert(false);
        }
        lemma_block_single(ops, o, e, x, st.done, st.ud, more);
        AltsState { phase: 3, j: j, done: st.done + 1, ud: st.ud.push(rest.take(1)) }
    } else {
        assert(false);
        st
    }
}

/// A pattern of one alternative is a sequence of single char tests.
pub proof fn lemma_one_alt(t: Seq<char>)
    ensures
        alt_start(t) matches Some(a) ==> (a.len() == 1 ==> char_tests(t) == Some(a[0])),
        alt_tail(t) matches Some(a) ==> (a.len() == 1 ==> char_tests(t) == Some(a[0])),
        alt_tests(t) matches Some(a) ==> a.len() >= 1 && (a.len() == 1 ==> char_tests(t) == Some(a[0])),
    decreases t.len(),
{
    lemma_alts_nonempty(t);
    if t.len() == 0 {
        assert(char_tests(t) == Some(Seq::<CharTest>::empty()));
    } else {
        lemma_alts_nonempty(t.skip(1));
        if let Some((test, w)) = first_test(t, 1, t[0]) {
            if 0 <= w && 1 + w <= t.len() {
                lemma_one_alt(t.skip(1 + w));
                lemma_alts_nonempty(t.skip(1 + w));
                if let Some(r) = alt_tail(t.skip(1 + w)) {
                    let a = seq![seq![test] + r[0]] + r.skip(1);
                    if a.len() == 1 {
                        assert(r.len() == 1);
                        assert(a[0] == seq![test] + r[0]);
                    }
                }
            }
        }
    }
}

/// The alternatives of a single sequence of tests give what that sequence gives.
pub proof fn lemma_one_alt_match(ts: Seq<CharTest>, text: Seq<char>)
    ensures
        alts_match(seq![ts], text) == tests_match(ts, text),
{
    let a = seq![ts];
    assert(a[0] == ts);
    assert(a.skip(1) =~= Seq::<Seq<CharTest>>::empty());
    assert(alts_match(a.skip(1), text) == MatchResult::Failed);
}

} // verus!
