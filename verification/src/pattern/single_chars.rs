//! Patterns that are a sequence of single char tests (ASCII chars, escaped
//! special chars, `.` and the classes `%a %l %u %d %w`): what the compiler
//! makes of them, step by step, and that the program it makes matches
//! exactly the texts whose first chars pass the tests in turn.

use vstd::prelude::*;
use vstd::utf8::encode_utf8;
use crate::pattern::compiler::{
    char_chain_end, char_collapse_end, char_tests, collapsed_at, first_test, lemma_tests_ops, op_chars,
    op_err_jump, op_ok_jump, padded_bytes, parsed_tests, sequence_chain_len, spec_fix_jump_removed,
    spec_fix_ops_removed, spec_map_op_jumps, test_op, tests_ops, CharTest, MAX_PATTERN_LEN,
};
use crate::pattern::{fold_op, lemma_fold_char_eq, lemma_prefix_match_chars, match_fuel, run, same_chars, spec_match, step, Jump, Length, MatchResult, Op, Step};
use crate::text::{byte_len, char_bytes, fold_char, is_alnum, is_alpha, is_digit, is_lower, is_upper, lemma_byte_len_push};

verus! {

/// Whether the char `c` passes `test`.
pub open spec fn test_passes(test: CharTest, c: char) -> bool {
    match test {
        CharTest::Lit(x) => c == x,
        CharTest::Any => true,
        CharTest::Alpha => is_alpha(c),
        CharTest::Lower => is_lower(c),
        CharTest::Upper => is_upper(c),
        CharTest::Digit => is_digit(c),
        CharTest::Alnum => is_alnum(c),
    }
}

/// What a pattern of the tests `ts` gives on `text`: a match over the bytes
/// of its first `ts.len()` chars when each passes its test, else none.
pub open spec fn tests_match(ts: Seq<CharTest>, text: Seq<char>) -> MatchResult {
    if ts.len() <= text.len() && forall|j: int| 0 <= j < ts.len() ==> test_passes(#[trigger] ts[j], text[j]) {
        MatchResult::Matched(byte_len(text.take(ts.len() as int)) as usize)
    } else {
        MatchResult::Failed
    }
}

/// Whether the char `c` passes `test`, up to ASCII case when `fold`.
pub open spec fn test_passes_case(test: CharTest, c: char, fold: bool) -> bool {
    match test {
        CharTest::Lit(x) => if fold {
            fold_char(c) == fold_char(x)
        } else {
            c == x
        },
        _ => test_passes(test, c),
    }
}

/// What a pattern of the tests `ts` gives on `text` when its char tests
/// ignore ASCII case (`fold`) or not.
pub open spec fn tests_match_case(ts: Seq<CharTest>, text: Seq<char>, fold: bool) -> MatchResult {
    if ts.len() <= text.len() && forall|j: int| 0 <= j < ts.len() ==> test_passes_case(#[trigger] ts[j], text[j], fold) {
        MatchResult::Matched(byte_len(text.take(ts.len() as int)) as usize)
    } else {
        MatchResult::Failed
    }
}

/// The program `ops`, with every char and string test made to ignore ASCII
/// case when `fold`.
pub open spec fn case_ops(ops: Seq<Op>, fold: bool) -> Seq<Op> {
    if fold {
        ops.map_values(|op: Op| fold_op(op))
    } else {
        ops
    }
}

/// The char of a char test.
pub open spec fn lit_char(test: CharTest) -> char {
    match test {
        CharTest::Lit(c) => c,
        _ => ' ',
    }
}

/// The chars of a run of char tests.
pub open spec fn lit_chars(u: Seq<CharTest>) -> Seq<char> {
    Seq::new(u.len(), |i: int| lit_char(u[i]))
}

/// How many char tests `ts` starts with.
pub open spec fn lit_run(ts: Seq<CharTest>) -> int
    decreases ts.len(),
{
    if ts.len() > 0 && ts[0] is Lit {
        1 + lit_run(ts.skip(1))
    } else {
        0
    }
}

/// How many tests the first op of the optimized program stands for: the
/// char tests it starts with, ten at most, or else one test.
pub open spec fn first_unit_len(ts: Seq<CharTest>) -> int {
    if lit_run(ts) >= 10 {
        10
    } else if lit_run(ts) >= 1 {
        lit_run(ts)
    } else {
        1
    }
}

/// The tests cut into the units the optimized program tests one op each.
pub open spec fn units(ts: Seq<CharTest>) -> Seq<Seq<CharTest>>
    decreases ts.len(),
{
    if ts.len() == 0 {
        Seq::empty()
    } else {
        let k = first_unit_len(ts);
        if 0 < k <= ts.len() {
            seq![ts.take(k)] + units(ts.skip(k))
        } else {
            Seq::empty()
        }
    }
}

/// The op of a unit: the test's own op for a single test, a string test
/// for a run of char tests; on a pass it goes to op `okj`, else to the
/// error op.
pub open spec fn is_unit_op(op: Op, u: Seq<CharTest>, okj: int) -> bool {
    if u.len() == 1 {
        op == test_op(u[0], Jump(okj as u16), Jump(0))
    } else {
        op matches Op::String(o, e, l, b) && o == Jump(okj as u16) && e == Jump(0) && l as int == encode_utf8(
            lit_chars(u),
        ).len() && b@ == padded_bytes(encode_utf8(lit_chars(u)))
    }
}

/// The program of the tests `ts`: the error op, the accepting op, then the
/// ops of the units, each going on to the next, the last to the accepting op.
pub open spec fn is_tests_program(ops: Seq<Op>, ts: Seq<CharTest>) -> bool {
    let us = units(ts);
    &&& ops.len() == 2 + us.len()
    &&& ops[0] == Op::Error
    &&& ops[1] == Op::Accept
    &&& forall|k: int| 0 <= k < us.len() ==> is_unit_op(#[trigger] ops[2 + k], us[k], if k + 1 == us.len() { 1 } else { 3 + k })
}

/// Where the program of the tests `ts` starts: at the accepting op when
/// there are none, else at the first unit.
pub open spec fn tests_start(ts: Seq<CharTest>) -> int {
    if ts.len() == 0 {
        1
    } else {
        2
    }
}

/// What parsing the tests gives, after the error op and the accepting op.
pub open spec fn parsed_program(ts: Seq<CharTest>) -> Seq<Op> {
    seq![Op::Error, Op::Accept] + parsed_tests(2, ts)
}

/// The program once the jump to the first test is dropped.
pub open spec fn first_jump_dropped(ts: Seq<CharTest>) -> Seq<Op> {
    seq![Op::Error, Op::Accept, Op::Unwind(Jump(0), Length(0))] + tests_ops(3, 2, ts) + seq![
        Op::Unwind(Jump(1), Length(0)),
    ]
}

/// The program while the optimizer goes through it: the first `done` tests
/// are the units `ud`, the rest still one op per test, and the jump to the
/// accepting op closes it.
pub open spec fn tests_stage(ops: Seq<Op>, ts: Seq<CharTest>, done: int, ud: Seq<Seq<CharTest>>) -> bool {
    let c = ud.len() as int;
    let rest = ts.skip(done);
    &&& 0 <= done <= ts.len()
    &&& c <= done
    &&& units(ts) == ud + units(rest)
    &&& ops.len() == 2 + c + rest.len() + 1
    &&& ops[0] == Op::Error
    &&& ops[1] == Op::Accept
    &&& forall|k: int| 0 <= k < c ==> is_unit_op(#[trigger] ops[2 + k], ud[k], 3 + k)
    &&& forall|j: int| 0 <= j < rest.len() ==> #[trigger] ops[2 + c + j] == test_op(
        rest[j],
        Jump((3 + c + j) as u16),
        Jump(0),
    )
    &&& ops[ops.len() - 1] == Op::Unwind(Jump(1), Length(0))
}

/// Every char test holds an ASCII char.
pub open spec fn ascii_tests(ts: Seq<CharTest>) -> bool {
    forall|j: int| 0 <= j < ts.len() ==> (#[trigger] lit_char(ts[j]) as u32) < 0x80
}

/// The tests of a pattern test ASCII chars.
pub proof fn lemma_char_tests_ascii(t: Seq<char>)
    requires
        char_tests(t) is Some,
    ensures
        ascii_tests(char_tests(t)->0),
    decreases t.len(),
{
    if t.len() > 0 {
        let (test, w) = first_test(t, 1, t[0])->0;
        lemma_char_tests_ascii(t.skip(1 + w));
        let rest = char_tests(t.skip(1 + w))->0;
        let ts = char_tests(t)->0;
        assert(ts == seq![test] + rest);
        assert((lit_char(test) as u32) < 0x80);
        assert forall|j: int| 0 <= j < ts.len() implies (#[trigger] lit_char(ts[j]) as u32) < 0x80 by {
            if j > 0 {
                assert(ts[j] == rest[j - 1]);
            }
        }
    }
}

/// A run of char tests lies within the tests, and holds char tests only.
pub(crate) proof fn lemma_lit_run(ts: Seq<CharTest>)
    ensures
        0 <= lit_run(ts) <= ts.len(),
        forall|j: int| 0 <= j < lit_run(ts) ==> #[trigger] ts[j] is Lit,
        lit_run(ts) < ts.len() ==> !(ts[lit_run(ts)] is Lit),
    decreases ts.len(),
{
    if ts.len() > 0 && ts[0] is Lit {
        lemma_lit_run(ts.skip(1));
        assert forall|j: int| 0 <= j < lit_run(ts) implies #[trigger] ts[j] is Lit by {
            if j > 0 {
                assert(ts[j] == ts.skip(1)[j - 1]);
            }
        }
        if lit_run(ts) < ts.len() {
            assert(ts[lit_run(ts)] == ts.skip(1)[lit_run(ts) - 1]);
        }
    }
}

/// The first unit of non-empty tests, and the units after it.
pub(crate) proof fn lemma_units_first(ts: Seq<CharTest>)
    requires
        ts.len() > 0,
    ensures
        1 <= first_unit_len(ts) <= ts.len(),
        first_unit_len(ts) <= 10,
        units(ts) == seq![ts.take(first_unit_len(ts))] + units(ts.skip(first_unit_len(ts))),
        first_unit_len(ts) >= 2 ==> forall|j: int| 0 <= j < first_unit_len(ts) ==> #[trigger] ts[j] is Lit,
        first_unit_len(ts) >= 2 ==> first_unit_len(ts) == 10 || first_unit_len(ts) == ts.len() || !(
        ts[first_unit_len(ts)] is Lit),
        first_unit_len(ts) == 1 ==> lit_run(ts) <= 1,
{
    lemma_lit_run(ts);
}

/// There are no more units than tests.
pub(crate) proof fn lemma_units_len(ts: Seq<CharTest>)
    ensures
        units(ts).len() <= ts.len(),
    decreases ts.len(),
{
    if ts.len() > 0 {
        lemma_units_first(ts);
        lemma_units_len(ts.skip(first_unit_len(ts)));
    }
}

/// Changing the jumps of a test's op gives the op of that test with the
/// jumps changed.
pub(crate) proof fn lemma_map_test_op(test: CharTest, okj: Jump, erj: Jump, f: spec_fn(Jump) -> Jump)
    ensures
        spec_map_op_jumps(test_op(test, okj, erj), f) == test_op(test, f(okj), f(erj)),
{
}

/// Dropping the jump to the first test.
pub proof fn lemma_drop_first_jump(ts: Seq<CharTest>)
    requires
        ts.len() <= MAX_PATTERN_LEN,
    ensures
        spec_fix_ops_removed(parsed_program(ts).remove(2), 2, Jump(3)) == first_jump_dropped(ts),
        spec_fix_jump_removed(Jump(2), 2, Jump(3)) == Jump(3),
{
    lemma_tests_ops(4, 3, ts);
    lemma_tests_ops(3, 2, ts);
    let a = spec_fix_ops_removed(parsed_program(ts).remove(2), 2, Jump(3));
    let b = first_jump_dropped(ts);
    assert forall|k: int| 0 <= k < a.len() implies a[k] == b[k] by {
        if k >= 2 {
            assert(parsed_program(ts).remove(2)[k] == parsed_program(ts)[k + 1]);
        }
        if 3 <= k < 3 + ts.len() {
            let i = k - 3;
            assert(tests_ops(4, 3, ts)[i] == test_op(ts[i], Jump((4 + i + 1) as u16), Jump(3)));
            assert(tests_ops(3, 2, ts)[i] == test_op(ts[i], Jump((3 + i + 1) as u16), Jump(2)));
            lemma_map_test_op(ts[i], Jump((4 + i + 1) as u16), Jump(3), |j: Jump| spec_fix_jump_removed(j, 2, Jump(3)));
        }
    }
    assert(a =~= b);
}

/// Dropping the jump to the error op: every test still has its own op.
pub proof fn lemma_drop_error_jump(ts: Seq<CharTest>)
    requires
        ts.len() <= MAX_PATTERN_LEN,
    ensures
        tests_stage(spec_fix_ops_removed(first_jump_dropped(ts).remove(2), 2, Jump(0)), ts, 0, Seq::empty()),
        spec_fix_jump_removed(Jump(3), 2, Jump(0)) == Jump(2),
{
    lemma_tests_ops(3, 2, ts);
    let a = spec_fix_ops_removed(first_jump_dropped(ts).remove(2), 2, Jump(0));
    assert(ts.skip(0) =~= ts);
    assert(Seq::<Seq<CharTest>>::empty() + units(ts) =~= units(ts));
    assert forall|j: int| 0 <= j < ts.len() implies #[trigger] a[2 + 0 + j] == test_op(ts[j], Jump((3 + 0 + j) as u16), Jump(0)) by {
        assert(first_jump_dropped(ts).remove(2)[2 + j] == first_jump_dropped(ts)[3 + j]);
        assert(tests_ops(3, 2, ts)[j] == test_op(ts[j], Jump((3 + j + 1) as u16), Jump(2)));
        lemma_map_test_op(ts[j], Jump((3 + j + 1) as u16), Jump(2), |x: Jump| spec_fix_jump_removed(x, 2, Jump(0)));
    }
    assert(first_jump_dropped(ts).remove(2)[a.len() - 1] == first_jump_dropped(ts)[a.len() as int]);
}

/// An ASCII char takes one byte.
pub(crate) proof fn lemma_ascii_char_bytes(c: char)
    requires
        (c as u32) < 0x80,
    ensures
        char_bytes(c).len() == 1,
{
}

/// ASCII text takes one byte per char.
pub(crate) proof fn lemma_ascii_byte_len(s: Seq<char>)
    requires
        forall|i: int| 0 <= i < s.len() ==> (#[trigger] s[i] as u32) < 0x80,
    ensures
        byte_len(s) == s.len(),
        encode_utf8(s).len() == s.len(),
    decreases s.len(),
{
    if s.len() == 0 {
        assert(encode_utf8(s) =~= Seq::<u8>::empty());
    } else {
        let init = s.drop_last();
        assert forall|i: int| 0 <= i < init.len() implies (#[trigger] init[i] as u32) < 0x80 by {
            assert(init[i] == s[i]);
        }
        lemma_ascii_byte_len(init);
        lemma_ascii_char_bytes(s.last());
        assert(init.push(s.last()) =~= s);
        lemma_byte_len_push(init, s.last());
    }
}

/// The chain of char ops from op `k`, `k - i` chars after the first one at
/// `i`, ends after the first unit.
proof fn lemma_stage_chain_end(
    ops: Seq<Op>,
    ts: Seq<CharTest>,
    done: int,
    ud: Seq<Seq<CharTest>>,
    m: int,
    k: int,
)
    requires
        ascii_tests(ts),
        ts.len() <= MAX_PATTERN_LEN,
        tests_stage(ops, ts, done, ud),
        done < ts.len(),
        m == first_unit_len(ts.skip(done)),
        m >= 2,
        2 + ud.len() as int + 1 <= k <= 2 + ud.len() as int + m,
    ensures
        char_chain_end(ops, k, Jump(0), k - (2 + ud.len() as int)) == 2 + ud.len() as int + m,
    decreases 2 + ud.len() as int + m - k,
{
    let c = ud.len() as int;
    let i = 2 + c;
    let rest = ts.skip(done);
    lemma_units_first(rest);
    if k < i + m {
        let j = k - i;
        assert(ops[2 + c + j] == test_op(rest[j], Jump((3 + c + j) as u16), Jump(0)));
        assert(rest[j] is Lit);
        assert(rest[j] == ts[done + j]);
        lemma_ascii_char_bytes(lit_char(ts[done + j]));
        lemma_stage_chain_end(ops, ts, done, ud, m, k + 1);
    } else if k < ops.len() - 1 {
        let j = k - i;
        assert(ops[2 + c + j] == test_op(rest[j], Jump((3 + c + j) as u16), Jump(0)));
        if m < 10 {
            assert(!(rest[j] is Lit));
        } else {
            if let CharTest::Lit(x) = rest[j] {
                assert(rest[j] == ts[done + j]);
                assert(lit_char(ts[done + j]) == x);
                lemma_ascii_char_bytes(x);
            }
        }
    }
}

/// Collapsing the next run of char tests into a string test: where the
/// chain ends, what it tests, and that the program it gives is the next stage.
pub proof fn lemma_collapse_unit(ops: Seq<Op>, after: Seq<Op>, ts: Seq<CharTest>, done: int, ud: Seq<Seq<CharTest>>)
    requires
        ascii_tests(ts),
        ts.len() <= MAX_PATTERN_LEN,
        tests_stage(ops, ts, done, ud),
        done < ts.len(),
        first_unit_len(ts.skip(done)) >= 2,
    ensures
        ({
            let i = 2 + ud.len() as int;
            let m = first_unit_len(ts.skip(done));
            let u = ts.skip(done).take(m);
            &&& ops[i] is Char
            &&& char_collapse_end(ops, i) == i + m
            &&& op_chars(ops, i, i + m) == lit_chars(u)
            &&& byte_len(lit_chars(u)) == m
            &&& (collapsed_at(ops, after, i, i + m, op_ok_jump(ops[i + m - 1]), op_err_jump(ops[i]), encode_utf8(lit_chars(u)), (m - 1) as u16)
                ==> tests_stage(after, ts, done + m, ud.push(u)))
        }),
{
    let c = ud.len() as int;
    let i = 2 + c;
    let rest = ts.skip(done);
    let m = first_unit_len(rest);
    let u = rest.take(m);
    lemma_units_first(rest);
    assert(ops[2 + c + 0] == test_op(rest[0], Jump((3 + c + 0) as u16), Jump(0)));
    assert(rest[0] is Lit);
    assert(rest[0] == ts[done]);
    lemma_ascii_char_bytes(lit_char(ts[done]));
    lemma_stage_chain_end(ops, ts, done, ud, m, i + 1);
    assert forall|x: int| 0 <= x < m implies #[trigger] op_chars(ops, i, i + m)[x] == lit_chars(u)[x] by {
        assert(ops[2 + c + x] == test_op(rest[x], Jump((3 + c + x) as u16), Jump(0)));
        assert(rest[x] is Lit);
    }
    assert(op_chars(ops, i, i + m) =~= lit_chars(u));
    assert forall|x: int| 0 <= x < lit_chars(u).len() implies (#[trigger] lit_chars(u)[x] as u32) < 0x80 by {
        assert(u[x] == ts[done + x]);
    }
    lemma_ascii_byte_len(lit_chars(u));
    if collapsed_at(ops, after, i, i + m, op_ok_jump(ops[i + m - 1]), op_err_jump(ops[i]), encode_utf8(lit_chars(u)), (m - 1) as u16) {
        let kept = ops.take(i + 1) + ops.skip(i + m);
        let ud2 = ud.push(u);
        let rest2 = ts.skip(done + m);
        assert(rest.skip(m) =~= rest2);
        assert(units(ts) =~= ud2 + units(rest2));
        assert(ops[2 + c + (m - 1)] == test_op(rest[m - 1], Jump((3 + c + (m - 1)) as u16), Jump(0)));
        assert(rest[m - 1] is Lit);
        assert(op_ok_jump(ops[i + m - 1]) == Jump((i + m) as u16));
        assert(op_err_jump(ops[i]) == Jump(0));
        assert(after[0] == Op::Error) by {
            assert(kept[0] == ops[0]);
        }
        assert(after[1] == Op::Accept) by {
            assert(kept[1] == ops[1]);
        }
        assert forall|k: int| 0 <= k < ud2.len() implies is_unit_op(#[trigger] after[2 + k], ud2[k], 3 + k) by {
            if k < c {
                assert(kept[2 + k] == ops[2 + k]);
                assert(is_unit_op(ops[2 + k], ud[k], 3 + k));
                if ud[k].len() == 1 {
                    lemma_map_test_op(ud[k][0], Jump((3 + k) as u16), Jump(0), |j: Jump| crate::pattern::compiler::spec_fix_jump_collapsed(j, i, (m - 1) as u16));
                }
            }
        }
        assert forall|j: int| 0 <= j < rest2.len() implies #[trigger] after[2 + ud2.len() as int + j] == test_op(
            rest2[j],
            Jump((3 + ud2.len() as int + j) as u16),
            Jump(0),
        ) by {
            assert(kept[2 + ud2.len() as int + j] == ops[2 + c + (m + j)]);
            assert(ops[2 + c + (m + j)] == test_op(rest[m + j], Jump((3 + c + (m + j)) as u16), Jump(0)));
            assert(rest2[j] == rest[m + j]);
            lemma_map_test_op(rest[m + j], Jump((3 + c + (m + j)) as u16), Jump(0), |x: Jump| crate::pattern::compiler::spec_fix_jump_collapsed(x, i, (m - 1) as u16));
        }
        assert(kept[kept.len() - 1] == ops[ops.len() - 1]);
    }
}

/// A unit of one test keeps its own op: the optimizer leaves it as it is.
pub proof fn lemma_single_unit(ops: Seq<Op>, ts: Seq<CharTest>, done: int, ud: Seq<Seq<CharTest>>)
    requires
        ascii_tests(ts),
        ts.len() <= MAX_PATTERN_LEN,
        tests_stage(ops, ts, done, ud),
        done < ts.len(),
        first_unit_len(ts.skip(done)) == 1,
    ensures
        ops[2 + ud.len() as int] == test_op(ts[done], Jump((3 + ud.len() as int) as u16), Jump(0)),
        ops[2 + ud.len() as int] is Char ==> char_collapse_end(ops, 2 + ud.len() as int) == 2 + ud.len() as int + 1,
        ops[2 + ud.len() as int] is Char ==> sequence_chain_len(ops, 2 + ud.len() as int, 0, 0) == 0,
        tests_stage(ops, ts, done + 1, ud.push(ts.skip(done).take(1))),
{
    let c = ud.len() as int;
    let i = 2 + c;
    let rest = ts.skip(done);
    lemma_units_first(rest);
    assert(ops[2 + c + 0] == test_op(rest[0], Jump((3 + c + 0) as u16), Jump(0)));
    assert(rest[0] == ts[done]);
    if rest[0] is Lit {
        assert(rest[0] == ts[done]);
        lemma_ascii_char_bytes(lit_char(ts[done]));
        lemma_lit_run(rest);
        if rest.len() > 1 {
            assert(ops[2 + c + 1] == test_op(rest[1], Jump((3 + c + 1) as u16), Jump(0)));
            assert(!(rest[1] is Lit));
        } else {
            assert(ops[ops.len() - 1] == Op::Unwind(Jump(1), Length(0)));
        }
    }
    let ud2 = ud.push(rest.take(1));
    let rest2 = ts.skip(done + 1);
    assert(rest.skip(1) =~= rest2);
    assert(units(ts) =~= ud2 + units(rest2));
    assert forall|k: int| 0 <= k < ud2.len() implies is_unit_op(#[trigger] ops[2 + k], ud2[k], 3 + k) by {
        if k < c {
            assert(is_unit_op(ops[2 + k], ud[k], 3 + k));
        }
    }
    assert forall|j: int| 0 <= j < rest2.len() implies #[trigger] ops[2 + ud2.len() as int + j] == test_op(
        rest2[j],
        Jump((3 + ud2.len() as int + j) as u16),
        Jump(0),
    ) by {
        assert(ops[2 + c + (1 + j)] == test_op(rest[1 + j], Jump((3 + c + (1 + j)) as u16), Jump(0)));
        assert(rest2[j] == rest[1 + j]);
    }
}

/// Dropping the closing jump to the accepting op gives the program of the tests.
pub proof fn lemma_drop_last_jump(ops: Seq<Op>, ts: Seq<CharTest>, ud: Seq<Seq<CharTest>>)
    requires
        ts.len() <= MAX_PATTERN_LEN,
        tests_stage(ops, ts, ts.len() as int, ud),
    ensures
        ops[2 + ud.len() as int] == Op::Unwind(Jump(1), Length(0)),
        is_tests_program(spec_fix_ops_removed(ops.remove(2 + ud.len() as int), 2 + ud.len() as int, Jump(1)), ts),
        spec_fix_jump_removed(Jump(2), 2 + ud.len() as int, Jump(1)) == Jump(tests_start(ts) as u16),
{
    let c = ud.len() as int;
    let i = 2 + c;
    let after = spec_fix_ops_removed(ops.remove(i), i, Jump(1));
    assert(ts.skip(ts.len() as int).len() == 0);
    assert(units(ts.skip(ts.len() as int)) =~= Seq::<Seq<CharTest>>::empty());
    assert(units(ts) =~= ud);
    if ts.len() > 0 {
        lemma_units_first(ts);
    }
    assert(after[0] == Op::Error) by {
        assert(ops.remove(i)[0] == ops[0]);
    }
    assert(after[1] == Op::Accept) by {
        assert(ops.remove(i)[1] == ops[1]);
    }
    assert forall|k: int| 0 <= k < c implies is_unit_op(#[trigger] after[2 + k], ud[k], if k + 1 == c { 1 } else { 3 + k }) by {
        assert(ops.remove(i)[2 + k] == ops[2 + k]);
        assert(is_unit_op(ops[2 + k], ud[k], 3 + k));
        if ud[k].len() == 1 {
            lemma_map_test_op(ud[k][0], Jump((3 + k) as u16), Jump(0), |j: Jump| spec_fix_jump_removed(j, i, Jump(1)));
        }
    }
}

/// What the op of a test does: on to `okj` past the char when it passes,
/// else to `erj`.
pub(crate) proof fn lemma_step_test_op(ops: Seq<Op>, text: Seq<char>, pc: int, pos: int, test: CharTest, okj: Jump, erj: Jump)
    requires
        0 <= pc < ops.len(),
        ops[pc] == test_op(test, okj, erj),
    ensures
        step(ops, text, pc, pos) == if 0 <= pos < text.len() && test_passes(test, text[pos]) {
            Step::Next(okj.0 as int, pos + 1)
        } else {
            Step::Next(erj.0 as int, pos)
        },
{
    match test {
        CharTest::Lit(x) => {},
        CharTest::Any => {},
        CharTest::Alpha => {},
        CharTest::Lower => {},
        CharTest::Upper => {},
        CharTest::Digit => {},
        CharTest::Alnum => {},
    }
}

/// What the op of a test does once made to ignore ASCII case, or not.
proof fn lemma_step_case_op(ops: Seq<Op>, text: Seq<char>, pc: int, pos: int, test: CharTest, okj: Jump, erj: Jump, fold: bool)
    requires
        0 <= pc < ops.len(),
        ops[pc] == test_op(test, okj, erj),
    ensures
        step(case_ops(ops, fold), text, pc, pos) == if 0 <= pos < text.len() && test_passes_case(test, text[pos], fold) {
            Step::Next(okj.0 as int, pos + 1)
        } else {
            Step::Next(erj.0 as int, pos)
        },
{
    let o = case_ops(ops, fold);
    assert(o[pc] == if fold { fold_op(ops[pc]) } else { ops[pc] });
    match test {
        CharTest::Lit(x) => {},
        CharTest::Any => {},
        CharTest::Alpha => {},
        CharTest::Lower => {},
        CharTest::Upper => {},
        CharTest::Digit => {},
        CharTest::Alnum => {},
    }
}

/// Running the program of the tests (made to ignore ASCII case when `fold`)
/// from unit `k` (or from the accepting op after the last unit) at char `p`,
/// where the units from `k` on are those of the tests from `p` on.
proof fn lemma_run_units(ops: Seq<Op>, ts: Seq<CharTest>, text: Seq<char>, k: int, p: int, fuel: nat, fold: bool)
    requires
        is_tests_program(ops, ts),
        ascii_tests(ts),
        ts.len() <= MAX_PATTERN_LEN,
        ts.len() >= 1,
        0 <= k <= units(ts).len(),
        0 <= p <= ts.len(),
        p <= text.len(),
        units(ts.skip(p)) == units(ts).skip(k),
        fuel >= units(ts).len() - k + 2,
    ensures
        run(case_ops(ops, fold), text, if k == units(ts).len() { 1 } else { 2 + k }, p, fuel) == if ts.len() <= text.len()
            && forall|j: int| p <= j < ts.len() ==> test_passes_case(#[trigger] ts[j], text[j], fold) {
            MatchResult::Matched(byte_len(text.take(ts.len() as int)) as usize)
        } else {
            MatchResult::Failed
        },
    decreases units(ts).len() - k,
{
    let us = units(ts);
    let o = case_ops(ops, fold);
    let n = ts.len() as int;
    assert(o[0] == Op::Error);
    assert(o[1] == Op::Accept);
    let rest = ts.skip(p);
    lemma_units_len(ts);
    if k == us.len() {
        if rest.len() > 0 {
            lemma_units_first(rest);
            assert(units(rest).len() > 0);
        }
        assert(p == n);
    } else {
        assert(us.skip(k).len() > 0);
        if rest.len() == 0 {
            assert(units(rest) =~= Seq::<Seq<CharTest>>::empty());
        }
        lemma_units_first(rest);
        let m = first_unit_len(rest);
        let u = rest.take(m);
        let next = if k + 1 == us.len() { 1 } else { 3 + k };
        assert(us.skip(k)[0] == us[k]);
        assert(us[k] == u);
        assert(rest.skip(m) =~= ts.skip(p + m));
        assert(us.skip(k).skip(1) =~= us.skip(k + 1));
        assert(units(ts.skip(p + m)) == us.skip(k + 1));
        assert(is_unit_op(ops[2 + k], u, next));
        let pass = p + m <= text.len() && forall|j: int| p <= j < p + m ==> test_passes_case(#[trigger] ts[j], text[j], fold);
        if m == 1 {
            assert(u[0] == ts[p]);
            lemma_step_case_op(ops, text, 2 + k, p, ts[p], Jump(next as u16), Jump(0), fold);
            if pass {
                assert(test_passes_case(ts[p], text[p], fold));
            }
            if p < text.len() && test_passes_case(ts[p], text[p], fold) {
                assert forall|j: int| p <= j < p + m implies test_passes_case(#[trigger] ts[j], text[j], fold) by {
                    assert(j == p);
                }
            }
        } else {
            let chars = lit_chars(u);
            assert forall|x: int| 0 <= x < chars.len() implies (#[trigger] chars[x] as u32) < 0x80 by {
                assert(u[x] == ts[p + x]);
            }
            lemma_ascii_byte_len(chars);
            if let Op::String(oj, e, l, b) = ops[2 + k] {
                assert(b@.len() == 10);
                assert(b@.take(l as int) =~= encode_utf8(chars));
                if fold {
                    assert(o[2 + k] == Op::StringCaseInsensitive(oj, e, l, b));
                } else {
                    assert(o[2 + k] == Op::String(oj, e, l, b));
                }
            }
            lemma_prefix_match_chars(text, p, chars, fold);
            let sub = text.subrange(p, p + m);
            if pass {
                assert(same_chars(sub, chars, fold)) by {
                    assert forall|x: int| 0 <= x < m implies (if fold {
                        fold_char(#[trigger] sub[x]) == fold_char(chars[x])
                    } else {
                        sub[x] == chars[x]
                    }) by {
                        assert(test_passes_case(ts[p + x], text[p + x], fold));
                        assert(u[x] == ts[p + x]);
                        assert(u[x] is Lit);
                    }
                }
            }
            if p + m <= text.len() && same_chars(sub, chars, fold) {
                assert forall|j: int| p <= j < p + m implies test_passes_case(#[trigger] ts[j], text[j], fold) by {
                    assert(sub[j - p] == text[j]);
                    assert(u[j - p] == ts[j]);
                    assert(u[j - p] is Lit);
                    if fold {
                        assert(fold_char(sub[j - p]) == fold_char(chars[j - p]));
                    } else {
                        assert(sub[j - p] == chars[j - p]);
                    }
                }
            }
        }
        if pass {
            lemma_run_units(ops, ts, text, k + 1, p + m, (fuel - 1) as nat, fold);
            if n <= text.len() {
                if forall|j: int| p + m <= j < n ==> test_passes_case(#[trigger] ts[j], text[j], fold) {
                    assert forall|j: int| p <= j < n implies test_passes_case(#[trigger] ts[j], text[j], fold) by {
                        if j < p + m {
                        }
                    }
                }
            }
        } else {
            assert(run(o, text, 0, p, (fuel - 1) as nat) == MatchResult::Failed);
        }
    }
}

/// The program of a sequence of single char tests matches exactly the
/// texts whose first chars pass the tests in turn, over the bytes of those
/// chars.
pub proof fn lemma_tests_program_matches(ops: Seq<Op>, ts: Seq<CharTest>, text: Seq<char>)
    requires
        is_tests_program(ops, ts),
        ascii_tests(ts),
        ts.len() <= MAX_PATTERN_LEN,
    ensures
        spec_match(ops, text, tests_start(ts)) == tests_match(ts, text),
{
    lemma_case_tests_program_matches(ops, ts, text, false);
    assert forall|j: int| 0 <= j < ts.len() implies test_passes_case(#[trigger] ts[j], text[j], false) == test_passes(ts[j], text[j]) by {
        match ts[j] {
            CharTest::Lit(x) => {},
            _ => {},
        }
    }
}

/// The program of a sequence of single char tests, made to ignore ASCII
/// case when `fold`, matches exactly the texts whose first chars pass the
/// tests in turn (a char test up to ASCII case when `fold`), over the bytes
/// of those chars.
pub proof fn lemma_case_tests_program_matches(ops: Seq<Op>, ts: Seq<CharTest>, text: Seq<char>, fold: bool)
    requires
        is_tests_program(ops, ts),
        ascii_tests(ts),
        ts.len() <= MAX_PATTERN_LEN,
    ensures
        spec_match(case_ops(ops, fold), text, tests_start(ts)) == tests_match_case(ts, text, fold),
{
    if ts.len() > 0 {
        assert(ts.skip(0) =~= ts);
        assert(units(ts).skip(0) =~= units(ts));
        lemma_units_len(ts);
        lemma_run_units(ops, ts, text, 0, 0, match_fuel(), fold);
        lemma_units_first(ts);
    } else {
        assert(case_ops(ops, fold)[1] == Op::Accept);
        assert(text.take(0) =~= Seq::<char>::empty());
    }
}

/// Texts that differ only in ASCII case have the same UTF-8 length.
proof fn lemma_byte_len_fold_eq(a: Seq<char>, b: Seq<char>)
    requires
        a.len() == b.len(),
        forall|i: int| 0 <= i < a.len() ==> fold_char(#[trigger] a[i]) == fold_char(b[i]),
    ensures
        byte_len(a) == byte_len(b),
    decreases a.len(),
{
    if a.len() > 0 {
        let n = a.len() - 1;
        lemma_byte_len_fold_eq(a.drop_last(), b.drop_last());
        assert(a.drop_last().push(a.last()) =~= a);
        assert(b.drop_last().push(b.last()) =~= b);
        lemma_byte_len_push(a.drop_last(), a.last());
        lemma_byte_len_push(b.drop_last(), b.last());
        assert(fold_char(a[n]) == fold_char(b[n]));
        lemma_fold_char_eq(a.last(), b.last());
        if a.last() != b.last() {
            lemma_ascii_char_bytes(a.last());
            lemma_ascii_char_bytes(b.last());
        }
    }
}

/// A search for a sequence of single char tests that ignores case gives the
/// same result on two texts that differ only in ASCII case, as long as it
/// tests no char for being lower or upper case.
pub proof fn lemma_case_insensitive_search(ops: Seq<Op>, ts: Seq<CharTest>, t1: Seq<char>, t2: Seq<char>)
    requires
        is_tests_program(ops, ts),
        ascii_tests(ts),
        ts.len() <= MAX_PATTERN_LEN,
        forall|j: int| 0 <= j < ts.len() ==> !(#[trigger] ts[j] is Lower) && !(ts[j] is Upper),
        t1.len() == t2.len(),
        forall|i: int| 0 <= i < t1.len() ==> fold_char(#[trigger] t1[i]) == fold_char(t2[i]),
    ensures
        spec_match(case_ops(ops, true), t1, tests_start(ts)) == spec_match(case_ops(ops, true), t2, tests_start(ts)),
{
    lemma_case_tests_program_matches(ops, ts, t1, true);
    lemma_case_tests_program_matches(ops, ts, t2, true);
    if ts.len() <= t1.len() {
        assert forall|j: int| 0 <= j < ts.len() implies test_passes_case(#[trigger] ts[j], t1[j], true)
            == test_passes_case(ts[j], t2[j], true) by {
            let x = t1[j];
            let y = t2[j];
            assert(fold_char(x) == fold_char(y));
            lemma_fold_char_eq(x, y);
            crate::pattern::lemma_fold_char_classes(x, y);
            match ts[j] {
                CharTest::Lit(_) => {},
                CharTest::Any => {},
                CharTest::Alpha => {},
                CharTest::Lower => {},
                CharTest::Upper => {},
                CharTest::Digit => {},
                CharTest::Alnum => {},
            }
        }
        let n = ts.len() as int;
        assert forall|i: int| 0 <= i < n implies fold_char(#[trigger] t1.take(n)[i]) == fold_char(t2.take(n)[i]) by {
            assert(fold_char(t1[i]) == fold_char(t2[i]));
        }
        lemma_byte_len_fold_eq(t1.take(n), t2.take(n));
    }
}

} // verus!
