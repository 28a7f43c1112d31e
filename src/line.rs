//! One line of a puzzle: the full truth table over its cells, the
//! placements of its runs, the clauses that forbid every other assignment,
//! and a scan-based check of a line against its clues.
use vstd::arithmetic::power2::{lemma_pow2_unfold, pow2};
use vstd::prelude::*;

verus! {

/// The filled (`true`) or empty (`false`) state that each signed literal denotes.
pub open spec fn signs(v: Seq<i32>) -> Seq<bool> {
    Seq::new(v.len(), |j: int| v[j] > 0)
}

/// `v` gives each magnitude of `mags`, in order, either sign.
pub open spec fn is_sign_choice(v: Seq<i32>, mags: Seq<i32>) -> bool {
    v.len() == mags.len() && forall|j: int|
        0 <= j < v.len() ==> (#[trigger] v[j] == mags[j] || v[j] == -mags[j])
}

/// The sequence of views of a sequence of vectors.
pub open spec fn views(s: Seq<Vec<i32>>) -> Seq<Seq<i32>> {
    Seq::new(s.len(), |i: int| s[i]@)
}

/// Every entry of `s` is a positive magnitude.
pub open spec fn all_positive(s: Seq<i32>) -> bool {
    forall|j: int| 0 <= j < s.len() ==> #[trigger] s[j] > 0
}

/// No two entries of `s` are equal.
pub open spec fn distinct(s: Seq<Seq<i32>>) -> bool {
    forall|a: int, b: int| 0 <= a < s.len() && 0 <= b < s.len() && a != b ==> s[a] != s[b]
}

/// The magnitudes `1..=n`, as the literals of a line of `n` cells.
pub open spec fn one_to(n: nat) -> Seq<i32> {
    Seq::new(n, |j: int| (j + 1) as i32)
}

/// Every entry of `v` is a nonzero literal whose sign can be flipped.
pub open spec fn literals(v: Seq<i32>) -> bool {
    forall|j: int| 0 <= j < v.len() ==> #[trigger] v[j] != 0 && v[j] > i32::MIN
}

/// `a` carries the literals of `b`, each with either sign.
pub open spec fn same_magnitudes(a: Seq<i32>, b: Seq<i32>) -> bool {
    a.len() == b.len() && forall|j: int| 0 <= j < a.len() ==> (#[trigger] a[j] == b[j] || a[j] == -b[j])
}

/// Every clue is a run of at least one cell.
pub open spec fn clues_positive(clues: Seq<usize>) -> bool {
    forall|k: int| 0 <= k < clues.len() ==> #[trigger] clues[k] >= 1
}

/// The cells of `line` from `i` on hold exactly the runs `clues`, in order,
/// separated by at least one empty cell, and nothing else.
pub open spec fn valid_from(line: Seq<bool>, i: int, clues: Seq<usize>) -> bool
    decreases line.len() - i,
{
    if i >= line.len() {
        clues.len() == 0
    } else if !line[i] {
        valid_from(line, i + 1, clues)
    } else {
        clues.len() > 0 && run_from(line, i + 1, clues[0] - 1, clues.drop_first())
    }
}

/// Inside a run that still needs `need` filled cells from `i` on; after it,
/// the line must end or go on with an empty cell and then the runs `clues`.
pub open spec fn run_from(line: Seq<bool>, i: int, need: int, clues: Seq<usize>) -> bool
    decreases line.len() - i,
{
    if need <= 0 {
        if i >= line.len() {
            clues.len() == 0
        } else {
            !line[i] && valid_from(line, i + 1, clues)
        }
    } else {
        i < line.len() && line[i] && run_from(line, i + 1, need - 1, clues)
    }
}

/// The whole line holds exactly the runs `clues`.
pub open spec fn line_valid(line: Seq<bool>, clues: Seq<usize>) -> bool {
    valid_from(line, 0, clues)
}

/// Empty cells before the next run can be skipped.
proof fn lemma_skip_empty(line: Seq<bool>, a: int, b: int, clues: Seq<usize>)
    requires
        0 <= a <= b <= line.len(),
        forall|j: int| a <= j < b ==> !#[trigger] line[j],
    ensures
        valid_from(line, a, clues) == valid_from(line, b, clues),
    decreases b - a,
{
    if a < b {
        lemma_skip_empty(line, a + 1, b, clues);
    }
}

/// Filled cells inside a run are consumed one by one.
proof fn lemma_run_filled(line: Seq<bool>, a: int, c: int, clues: Seq<usize>)
    requires
        0 <= a,
        0 <= c,
        a + c <= line.len(),
        forall|j: int| a <= j < a + c ==> #[trigger] line[j],
    ensures
        run_from(line, a, c, clues) == run_from(line, a + c, 0, clues),
    decreases c,
{
    if c > 0 {
        lemma_run_filled(line, a + 1, c - 1, clues);
    }
}

/// A run that is satisfied fits in the line and is filled.
proof fn lemma_run_fits(line: Seq<bool>, a: int, c: int, clues: Seq<usize>)
    requires
        0 <= a <= line.len(),
        0 <= c,
        run_from(line, a, c, clues),
    ensures
        a + c <= line.len(),
        forall|j: int| a <= j < a + c ==> #[trigger] line[j],
        run_from(line, a + c, 0, clues),
    decreases c,
{
    if c > 0 {
        lemma_run_fits(line, a + 1, c - 1, clues);
    }
}

/// Where no runs remain, every cell is empty.
proof fn lemma_no_runs(line: Seq<bool>, a: int, j: int, clues: Seq<usize>)
    requires
        0 <= a <= j < line.len(),
        valid_from(line, a, clues),
        clues.len() == 0,
    ensures
        !line[j],
    decreases j - a,
{
    if a < j {
        lemma_no_runs(line, a + 1, j, clues);
    }
}

/// Where runs remain, a first filled cell follows the empty ones.
proof fn lemma_first_filled(line: Seq<bool>, a: int, clues: Seq<usize>) -> (t: int)
    requires
        0 <= a,
        valid_from(line, a, clues),
        clues.len() > 0,
    ensures
        a <= t < line.len(),
        line[t],
        forall|j: int| a <= j < t ==> !#[trigger] line[j],
    decreases line.len() - a,
{
    if !line[a] {
        lemma_first_filled(line, a + 1, clues)
    } else {
        a
    }
}

/// The fewest cells that hold the runs `clues`: their lengths and one empty
/// cell between each two.
pub open spec fn span(clues: Seq<usize>) -> int
    decreases clues.len(),
{
    if clues.len() == 0 {
        0
    } else if clues.len() == 1 {
        clues[0] as int
    } else {
        clues[0] + 1 + span(clues.drop_first())
    }
}

/// Cell `j` of the line that packs the runs `clues` to the left.
pub open spec fn packed(clues: Seq<usize>, j: int) -> bool
    decreases clues.len(),
{
    if clues.len() == 0 {
        false
    } else if j < clues[0] {
        true
    } else if j == clues[0] {
        false
    } else {
        packed(clues.drop_first(), j - clues[0] - 1)
    }
}

proof fn lemma_span_nonneg(clues: Seq<usize>)
    ensures
        span(clues) >= 0,
        clues.len() > 0 ==> span(clues) >= clues[0],
    decreases clues.len(),
{
    if clues.len() > 1 {
        lemma_span_nonneg(clues.drop_first());
    }
}

proof fn lemma_valid_fits(line: Seq<bool>, a: int, clues: Seq<usize>)
    requires
        0 <= a <= line.len(),
        clues_positive(clues),
        valid_from(line, a, clues),
    ensures
        a + span(clues) <= line.len(),
    decreases line.len() - a,
{
    if clues.len() > 0 {
        let t = lemma_first_filled(line, a, clues);
        lemma_skip_empty(line, a, t, clues);
        let c = clues[0] as int;
        let rest = clues.drop_first();
        assert(clues[0] >= 1);
        lemma_run_fits(line, t + 1, c - 1, rest);
        if rest.len() > 0 {
            assert forall|k: int| 0 <= k < rest.len() implies #[trigger] rest[k] >= 1 by {
                assert(rest[k] == clues[k + 1]);
            }
            lemma_valid_fits(line, t + c + 1, rest);
        }
    }
}

proof fn lemma_packed_valid(line: Seq<bool>, a: int, clues: Seq<usize>)
    requires
        0 <= a,
        a + span(clues) <= line.len(),
        clues_positive(clues),
        forall|j: int| a <= j < line.len() ==> #[trigger] line[j] == packed(clues, j - a),
    ensures
        valid_from(line, a, clues),
    decreases clues.len(),
{
    if clues.len() == 0 {
        lemma_skip_empty(line, a, line.len() as int, clues);
    } else {
        let c = clues[0] as int;
        let rest = clues.drop_first();
        assert(clues[0] >= 1);
        lemma_span_nonneg(clues);
        lemma_span_nonneg(rest);
        assert(line[a] == packed(clues, 0));
        assert forall|j: int| a + 1 <= j < a + c implies #[trigger] line[j] by {
            assert(line[j] == packed(clues, j - a));
        }
        lemma_run_filled(line, a + 1, c - 1, rest);
        if a + c < line.len() {
            assert(line[a + c] == packed(clues, c));
            assert forall|k: int| 0 <= k < rest.len() implies #[trigger] rest[k] >= 1 by {
                assert(rest[k] == clues[k + 1]);
            }
            assert forall|j: int| a + c + 1 <= j < line.len() implies #[trigger] line[j] == packed(rest, j - (a + c + 1)) by {
                assert(line[j] == packed(clues, j - a));
            }
            lemma_packed_valid(line, a + c + 1, rest);
        }
    }
}

/// A line of `n` cells can hold the runs `clues` exactly when their lengths
/// and the empty cells between them fit in `n`; so the placements of such
/// clues are never empty, and those of other clues always are.
pub proof fn lemma_placeable_iff_fits(n: nat, clues: Seq<usize>)
    requires
        clues_positive(clues),
    ensures
        (exists|line: Seq<bool>| line.len() == n && #[trigger] line_valid(line, clues)) <==> span(clues) <= n,
{
    if span(clues) <= n {
        let line = Seq::new(n, |j: int| packed(clues, j));
        lemma_packed_valid(line, 0, clues);
        assert(line_valid(line, clues));
    }
    if exists|line: Seq<bool>| line.len() == n && #[trigger] line_valid(line, clues) {
        let line = choose|line: Seq<bool>| line.len() == n && #[trigger] line_valid(line, clues);
        lemma_valid_fits(line, 0, clues);
    }
}

/// Gives each literal of `v` in `from..to` the sign `filled`, keeping its magnitude.
fn mark(v: &mut Vec<i32>, from: usize, to: usize, filled: bool)
    requires
        from <= to <= old(v)@.len(),
        literals(old(v)@),
    ensures
        same_magnitudes(final(v)@, old(v)@),
        literals(final(v)@),
        forall|j: int| 0 <= j < final(v)@.len() && !(from <= j < to) ==> #[trigger] final(v)@[j] == old(v)@[j],
        forall|j: int| from <= j < to ==> (#[trigger] final(v)@[j] > 0) == filled,
{
    let mut j: usize = from;
    while j < to
        invariant
            from <= j <= to <= v@.len(),
            same_magnitudes(v@, old(v)@),
            literals(v@),
            forall|k: int| 0 <= k < v@.len() && !(from <= k < j) ==> #[trigger] v@[k] == old(v)@[k],
            forall|k: int| from <= k < j ==> (#[trigger] v@[k] > 0) == filled,
        decreases to - j,
    {
        let x = v[j];
        let m: i32 = if x < 0 { -x } else { x };
        if filled {
            v.set(j, m);
        } else {
            v.set(j, -m);
        }
        j = j + 1;
    }
}

/// The cursor `start` on a line of `n` cells: past the end there is no room.
pub open spec fn cursor(start: usize, n: nat) -> int {
    if start <= n {
        start as int
    } else {
        n as int
    }
}

/// The first filled cell from `a` on is the one at `s`.
proof fn lemma_next_filled_at(l: Seq<bool>, a: int, s: int)
    requires
        0 <= a <= s < l.len(),
        l[s],
        forall|j: int| a <= j < s ==> !#[trigger] l[j],
    ensures
        next_filled(l, a) == s,
    decreases s - a,
{
    if a < s {
        lemma_next_filled_at(l, a + 1, s);
    }
}

/// Every assignment of the literals `vars` that keeps the signs before
/// `search_start_index` and places the runs `sets`, in order and apart,
/// from there on, leaving all other cells empty; each comes out once. A
/// cursor past the end leaves no room for a run.
pub fn make_possible_combos(search_start_index: usize, vars: Vec<i32>, sets: &[usize]) -> (result: Vec<Vec<i32>>)
    requires
        literals(vars@),
        clues_positive(sets@),
    ensures
        forall|i: int|
            0 <= i < result@.len() ==> {
                let r = #[trigger] result@[i]@;
                &&& same_magnitudes(r, vars@)
                &&& r.subrange(0, cursor(search_start_index, vars@.len())) == vars@.subrange(
                    0,
                    cursor(search_start_index, vars@.len()),
                )
                &&& valid_from(signs(r), search_start_index as int, sets@)
            },
        forall|line: Seq<bool>|
            line.len() == vars@.len() && line.subrange(0, cursor(search_start_index, vars@.len())) == signs(
                vars@,
            ).subrange(0, cursor(search_start_index, vars@.len())) && #[trigger] valid_from(
                line,
                search_start_index as int,
                sets@,
            ) ==> exists|i: int| 0 <= i < result@.len() && signs(#[trigger] result@[i]@) == line,
        distinct(views(result@)),
    decreases sets@.len(),
{
    let n = vars.len();
    let start = if search_start_index <= n { search_start_index } else { n };
    proof {
        assert forall|x: Seq<bool>| x.len() == n implies #[trigger] valid_from(x, search_start_index as int, sets@)
            == valid_from(x, start as int, sets@) by {}
    }
    let mut result: Vec<Vec<i32>> = Vec::new();
    if sets.len() == 0 {
        let mut v = vars;
        mark(&mut v, start, n, false);
        result.push(v);
        proof {
            let r = result@[0]@;
            assert(r.subrange(0, start as int) =~= vars@.subrange(0, start as int));
            lemma_skip_empty(signs(r), start as int, n as int, sets@);
            assert forall|line: Seq<bool>|
                line.len() == vars@.len() && line.subrange(0, start as int) == signs(vars@).subrange(0, start as int)
                    && #[trigger] valid_from(line, start as int, sets@)
                implies exists|i: int| 0 <= i < result@.len() && signs(#[trigger] result@[i]@) == line by {
                assert forall|j: int| start <= j < n implies !#[trigger] line[j] by {
                    lemma_no_runs(line, start as int, j, sets@);
                }
                assert forall|j: int| 0 <= j < n implies #[trigger] signs(r)[j] == line[j] by {
                    if j < start {
                        assert(line[j] == line.subrange(0, start as int)[j]);
                        assert(signs(vars@)[j] == signs(vars@).subrange(0, start as int)[j]);
                    }
                }
                assert(signs(r) =~= line);
            }
        }
        return result;
    }
    let set_size = sets[0];
    let rest = vstd::slice::slice_subrange(sets, 1, sets.len());
    proof {
        assert(rest@ =~= sets@.drop_first());
    }
    if set_size > n {
        proof {
            assert forall|line: Seq<bool>|
                line.len() == vars@.len() && #[trigger] valid_from(line, start as int, sets@) implies false by {
                let t = lemma_first_filled(line, start as int, sets@);
                lemma_skip_empty(line, start as int, t, sets@);
                lemma_run_fits(line, t + 1, set_size - 1, rest@);
            }
        }
        return result;
    }
    let search_end_index = n - set_size + 1;
    let mut this_start_index = start;
    while this_start_index < search_end_index
        invariant
            start <= vars@.len() == n,
            literals(vars@),
            clues_positive(sets@),
            sets@.len() > 0,
            set_size == sets@[0],
            rest@ == sets@.drop_first(),
            1 <= set_size <= n,
            search_end_index == n - set_size + 1,
            start <= this_start_index,
            forall|i: int|
                0 <= i < result@.len() ==> {
                    let r = #[trigger] result@[i]@;
                    &&& same_magnitudes(r, vars@)
                    &&& r.subrange(0, start as int) == vars@.subrange(0, start as int)
                    &&& valid_from(signs(r), start as int, sets@)
                },
            forall|line: Seq<bool>, t: int|
                start <= t < this_start_index && line.len() == n && line.subrange(0, start as int) == signs(vars@).subrange(0, start as int)
                    && #[trigger] valid_from(line, start as int, sets@) && #[trigger] line[t]
                    && (forall|j: int| start <= j < t ==> !#[trigger] line[j])
                    ==> exists|i: int| 0 <= i < result@.len() && signs(#[trigger] result@[i]@) == line,
            forall|x: Seq<bool>| x.len() == n ==> #[trigger] valid_from(x, search_start_index as int, sets@)
                == valid_from(x, start as int, sets@),
            start == cursor(search_start_index, n as nat),
            distinct(views(result@)),
            forall|i: int| 0 <= i < result@.len() ==> next_filled(signs(#[trigger] result@[i]@), start as int) < this_start_index,
        decreases search_end_index - this_start_index,
    {
        let s = this_start_index;
        let mut vars_copy = vars.clone();
        mark(&mut vars_copy, start, s, false);
        let ghost after_gap = vars_copy@;
        mark(&mut vars_copy, s, s + set_size, true);
        let ghost after_run = vars_copy@;
        mark(&mut vars_copy, s + set_size, n, false);
        let next_set_start_index = if s + set_size < n { s + set_size + 1 } else { n };
        let ghost copy = vars_copy@;
        let mut found = make_possible_combos(next_set_start_index, vars_copy, rest);
        let ghost old_result = result@;
        let ghost f = found@;
        result.append(&mut found);
        proof {
            let c = set_size as int;
            let nx = next_set_start_index as int;
            assert(result@ == old_result + f);
            assert(same_magnitudes(copy, vars@));
            assert forall|j: int| 0 <= j < start implies #[trigger] copy[j] == vars@[j] by {}
            assert forall|j: int| start <= j < s implies !#[trigger] signs(copy)[j] by {
                assert(after_run[j] == after_gap[j]);
            }
            assert forall|j: int| s <= j < s + c implies #[trigger] signs(copy)[j] by {}
            assert(s + c < n ==> !signs(copy)[s + c]);
            // every new assignment places the first run at `s`
            assert forall|i: int| old_result.len() <= i < result@.len() implies {
                let r = #[trigger] result@[i]@;
                &&& same_magnitudes(r, vars@)
                &&& r.subrange(0, start as int) == vars@.subrange(0, start as int)
                &&& valid_from(signs(r), start as int, sets@)
                &&& next_filled(signs(r), start as int) == s
            } by {
                let r = result@[i]@;
                assert(result@[i] == f[i - old_result.len()]);
                let l = signs(r);
                assert forall|j: int| 0 <= j < nx implies #[trigger] r[j] == copy[j] by {
                    assert(r.subrange(0, nx)[j] == copy.subrange(0, nx)[j]);
                }
                assert(r.subrange(0, start as int) =~= vars@.subrange(0, start as int));
                assert forall|j: int| start <= j < s implies !#[trigger] l[j] by {
                    assert(signs(copy)[j] == (copy[j] > 0));
                }
                assert forall|j: int| s + 1 <= j < s + c implies #[trigger] l[j] by {
                    assert(signs(copy)[j] == (copy[j] > 0));
                }
                assert(l[s as int]) by {
                    assert(signs(copy)[s as int] == (copy[s as int] > 0));
                }
                lemma_skip_empty(l, start as int, s as int, sets@);
                lemma_run_filled(l, s + 1, c - 1, rest@);
                if s + c < n {
                    assert(signs(copy)[s + c] == (copy[s + c] > 0));
                }
                lemma_next_filled_at(l, start as int, s as int);
            }
            assert forall|i: int| 0 <= i < result@.len() implies next_filled(signs(#[trigger] result@[i]@), start as int) < s + 1 by {
                if i < old_result.len() {
                    assert(result@[i] == old_result[i]);
                }
            }
            assert forall|a: int, b: int|
                0 <= a < views(result@).len() && 0 <= b < views(result@).len() && a != b implies views(result@)[a]
                != views(result@)[b] by {
                let ol = old_result.len() as int;
                if a < ol && b < ol {
                    assert(views(old_result)[a] == views(result@)[a]);
                    assert(views(old_result)[b] == views(result@)[b]);
                } else if a >= ol && b >= ol {
                    assert(views(f)[a - ol] == views(result@)[a]);
                    assert(views(f)[b - ol] == views(result@)[b]);
                } else {
                    assert(result@[a]@ == views(result@)[a]);
                    assert(result@[b]@ == views(result@)[b]);
                    if a < ol {
                        assert(result@[a] == old_result[a]);
                        assert(next_filled(signs(result@[a]@), start as int) < s);
                        assert(next_filled(signs(result@[b]@), start as int) == s);
                    } else {
                        assert(result@[b] == old_result[b]);
                        assert(next_filled(signs(result@[b]@), start as int) < s);
                        assert(next_filled(signs(result@[a]@), start as int) == s);
                    }
                }
            }
            assert forall|line: Seq<bool>, t: int|
                start <= t < s + 1 && line.len() == n && line.subrange(0, start as int) == signs(vars@).subrange(0, start as int)
                    && #[trigger] valid_from(line, start as int, sets@) && #[trigger] line[t]
                    && (forall|j: int| start <= j < t ==> !#[trigger] line[j])
                implies exists|i: int| 0 <= i < result@.len() && signs(#[trigger] result@[i]@) == line by {
                if t < s {
                    let i = choose|i: int| 0 <= i < old_result.len() && signs(#[trigger] old_result[i]@) == line;
                    assert(result@[i] == old_result[i]);
                } else {
                    lemma_skip_empty(line, start as int, s as int, sets@);
                    lemma_run_fits(line, s + 1, c - 1, rest@);
                    assert(line.subrange(0, nx) =~= signs(copy).subrange(0, nx)) by {
                        assert forall|j: int| 0 <= j < nx implies line[j] == #[trigger] signs(copy)[j] by {
                            if j < start {
                                assert(line[j] == line.subrange(0, start as int)[j]);
                                assert(signs(vars@)[j] == signs(vars@).subrange(0, start as int)[j]);
                            }
                        }
                    }
                    assert(valid_from(line, nx, rest@));
                    let k = choose|k: int| 0 <= k < f.len() && signs(#[trigger] f[k]@) == line;
                    assert(result@[old_result.len() + k] == f[k]);
                }
            }
        }
        this_start_index = this_start_index + 1;
    }
    proof {
        assert forall|line: Seq<bool>|
            line.len() == vars@.len() && line.subrange(0, start as int) == signs(vars@).subrange(0, start as int)
                && #[trigger] valid_from(line, start as int, sets@)
            implies exists|i: int| 0 <= i < result@.len() && signs(#[trigger] result@[i]@) == line by {
            let t = lemma_first_filled(line, start as int, sets@);
            lemma_skip_empty(line, start as int, t, sets@);
            lemma_run_fits(line, t + 1, set_size - 1, rest@);
            assert(valid_from(line, start as int, sets@) && line[t]);
        }
    }
    result
}

/// Every vector that starts with `current` and then gives each magnitude of
/// `list_left` in turn a positive or a negative sign: `2^k` distinct vectors
/// for `k` magnitudes.
pub fn make_all_combos(current_list: Vec<i32>, list_left: &[i32]) -> (result: Vec<Vec<i32>>)
    requires
        all_positive(list_left@),
    ensures
        result@.len() == pow2(list_left@.len()),
        distinct(views(result@)),
        forall|i: int|
            0 <= i < result@.len() ==> {
                let r = #[trigger] result@[i]@;
                &&& r.len() == current_list@.len() + list_left@.len()
                &&& r.subrange(0, current_list@.len() as int) == current_list@
                &&& is_sign_choice(r.skip(current_list@.len() as int), list_left@)
            },
        forall|v: Seq<i32>|
            v.len() == current_list@.len() + list_left@.len() && v.subrange(
                0,
                current_list@.len() as int,
            ) == current_list@ && #[trigger] is_sign_choice(
                v.skip(current_list@.len() as int),
                list_left@,
            ) ==> views(result@).contains(v),
    decreases list_left@.len(),
{
    let mut result: Vec<Vec<i32>> = Vec::new();
    if list_left.len() == 0 {
        result.push(current_list);
        proof {
            assert(pow2(0) == 1) by {
                vstd::arithmetic::power2::lemma2_to64();
            }
            assert forall|v: Seq<i32>|
                v.len() == current_list@.len() + list_left@.len() && v.subrange(
                    0,
                    current_list@.len() as int,
                ) == current_list@ && #[trigger] is_sign_choice(
                    v.skip(current_list@.len() as int),
                    list_left@,
                ) implies views(result@).contains(v) by {
                assert(v == v.subrange(0, current_list@.len() as int));
                assert(views(result@)[0] == v);
            }
        }
        return result;
    }
    let m = list_left[0];
    let mut vec_pos = current_list.clone();
    let mut vec_neg = current_list;
    proof {
        assert(vec_pos@ == vec_neg@);
    }
    let ghost cur = vec_neg@;
    vec_pos.push(m);
    let neg_m: i32 = -m;
    vec_neg.push(neg_m);
    let rest = vstd::slice::slice_subrange(list_left, 1, list_left.len());
    assert(all_positive(rest@));
    let mut pos = make_all_combos(vec_pos, rest);
    let mut neg = make_all_combos(vec_neg, rest);
    let ghost p = pos@;
    let ghost q = neg@;
    result.append(&mut pos);
    result.append(&mut neg);
    proof {
        lemma_pow2_unfold(list_left@.len());
        let n = cur.len() as int;
        assert(result@ == p + q);
        assert forall|i: int| 0 <= i < result@.len() implies {
            let r = #[trigger] result@[i]@;
            &&& r.len() == cur.len() + list_left@.len()
            &&& r.subrange(0, cur.len() as int) == cur
            &&& is_sign_choice(r.skip(cur.len() as int), list_left@)
        } by {
            let r = result@[i]@;
            let pre = if i < p.len() { cur.push(m) } else { cur.push(neg_m) };
            if i < p.len() {
                assert(result@[i] == p[i]);
            } else {
                assert(result@[i] == q[i - p.len()]);
            }
            assert(r.subrange(0, n + 1) == pre);
            assert(r.subrange(0, n) == pre.subrange(0, n));
            assert(pre.subrange(0, n) == cur);
            let t = r.skip(n);
            assert forall|j: int| 0 <= j < t.len() implies (#[trigger] t[j] == list_left@[j]
                || t[j] == -list_left@[j]) by {
                if j == 0 {
                    assert(t[0] == r[n]);
                    assert(r[n] == pre[n]);
                } else {
                    assert(t[j] == r.skip(n + 1)[j - 1]);
                    assert(list_left@[j] == rest@[j - 1]);
                }
            }
        }
        assert forall|a: int, b: int|
            0 <= a < views(result@).len() && 0 <= b < views(result@).len() && a != b implies views(
            result@,
        )[a] != views(result@)[b] by {
            let ra = result@[a]@;
            let rb = result@[b]@;
            if (a < p.len()) == (b < p.len()) {
                if a < p.len() {
                    assert(views(p)[a] == ra && views(p)[b] == rb);
                } else {
                    assert(views(q)[a - p.len()] == ra && views(q)[b - p.len()] == rb);
                }
            } else {
                let (x, y) = if a < p.len() { (a, b) } else { (b, a) };
                let rx = result@[x]@;
                let ry = result@[y]@;
                assert(result@[x] == p[x]);
                assert(result@[y] == q[y - p.len()]);
                assert(rx.subrange(0, n + 1) == cur.push(m));
                assert(ry.subrange(0, n + 1) == cur.push(neg_m));
                assert(rx[n] == cur.push(m)[n]);
                assert(ry[n] == cur.push(neg_m)[n]);
            }
        }
        assert forall|v: Seq<i32>|
            v.len() == cur.len() + list_left@.len() && v.subrange(0, cur.len() as int) == cur
                && #[trigger] is_sign_choice(v.skip(cur.len() as int), list_left@) implies views(
            result@,
        ).contains(v) by {
            assert(v.skip(n)[0] == v[n]);
            let pre = if v[n] == m { cur.push(m) } else { cur.push(neg_m) };
            assert(v.subrange(0, n + 1) =~= pre);
            assert(is_sign_choice(v.skip(n + 1), rest@)) by {
                assert forall|j: int| 0 <= j < v.skip(n + 1).len() implies (#[trigger] v.skip(
                    n + 1,
                )[j] == rest@[j] || v.skip(n + 1)[j] == -rest@[j]) by {
                    assert(v.skip(n + 1)[j] == v.skip(n)[j + 1]);
                }
            }
            if v[n] == m {
                let k = choose|k: int| 0 <= k < views(p).len() && views(p)[k] == v;
                assert(views(result@)[k] == v);
            } else {
                let k = choose|k: int| 0 <= k < views(q).len() && views(q)[k] == v;
                assert(views(result@)[k + p.len()] == v);
            }
        }
    }
    result
}

/// Each literal of `v` with its sign flipped.
pub open spec fn negated(v: Seq<i32>) -> Seq<i32> {
    Seq::new(v.len(), |j: int| (-v[j]) as i32)
}

/// The total assignment `v` makes some literal of `clause` true.
pub open spec fn satisfies(v: Seq<i32>, clause: Seq<i32>) -> bool {
    exists|j: int| 0 <= j < clause.len() && v.contains(#[trigger] clause[j])
}

/// The total assignment `v` makes every clause of `cnf` true.
pub open spec fn satisfies_all(v: Seq<i32>, cnf: Seq<Seq<i32>>) -> bool {
    forall|i: int| 0 <= i < cnf.len() ==> satisfies(v, #[trigger] cnf[i])
}

/// The negation of each vector of `all` whose filled cells do not hold the
/// runs `sets`, in the order of `all`.
pub open spec fn forbidden_clauses(all: Seq<Seq<i32>>, sets: Seq<usize>) -> Seq<Seq<i32>>
    decreases all.len(),
{
    if all.len() == 0 {
        Seq::empty()
    } else {
        let p = forbidden_clauses(all.drop_last(), sets);
        if line_valid(signs(all.last()), sets) {
            p
        } else {
            p.push(negated(all.last()))
        }
    }
}

/// Flips the sign of every literal.
pub fn negate(mut vars: Vec<i32>) -> (r: Vec<i32>)
    requires
        forall|j: int| 0 <= j < vars@.len() ==> #[trigger] vars@[j] > i32::MIN,
    ensures
        r@ == negated(vars@),
{
    let ghost orig = vars@;
    let mut i: usize = 0;
    while i < vars.len()
        invariant
            vars@.len() == orig.len(),
            i <= orig.len(),
            forall|j: int| 0 <= j < orig.len() ==> #[trigger] orig[j] > i32::MIN,
            forall|j: int| 0 <= j < i ==> #[trigger] vars@[j] == (-orig[j]) as i32,
            forall|j: int| i <= j < orig.len() ==> #[trigger] vars@[j] == orig[j],
        decreases orig.len() - i,
    {
        let x = vars[i];
        vars.set(i, -x);
        i = i + 1;
    }
    assert(vars@ =~= negated(orig));
    vars
}

/// The literals `1..=size`, one per cell of a line.
pub fn one_to_n(size: usize) -> (r: Vec<i32>)
    requires
        size <= i32::MAX,
    ensures
        r@ == one_to(size as nat),
{
    let mut r: Vec<i32> = Vec::new();
    let mut i: usize = 0;
    while i < size
        invariant
            i <= size <= i32::MAX,
            r@ == one_to(i as nat),
        decreases size - i,
    {
        r.push((i + 1) as i32);
        i = i + 1;
        assert(r@ =~= one_to(i as nat));
    }
    r
}

/// The full truth table over a line of `size` cells: `2^size` distinct
/// vectors, each a sign choice over the literals `1..=size`, and every such
/// choice among them.
pub fn universal_set(size: usize) -> (all: Vec<Vec<i32>>)
    requires
        size <= i32::MAX,
    ensures
        all@.len() == pow2(size as nat),
        distinct(views(all@)),
        forall|i: int| 0 <= i < all@.len() ==> is_sign_choice(#[trigger] all@[i]@, one_to(size as nat)),
        forall|v: Seq<i32>| #[trigger] is_sign_choice(v, one_to(size as nat)) ==> views(all@).contains(v),
{
    let list_left = one_to_n(size);
    let all = make_all_combos(Vec::new(), list_left.as_slice());
    proof {
        let e = Seq::<i32>::empty();
        assert forall|i: int| 0 <= i < all@.len() implies is_sign_choice(#[trigger] all@[i]@, one_to(size as nat)) by {
            assert(all@[i]@.skip(0) =~= all@[i]@);
        }
        assert forall|v: Seq<i32>| #[trigger] is_sign_choice(v, one_to(size as nat)) implies views(all@).contains(v) by {
            assert(v.skip(0) =~= v);
            assert(v.subrange(0, 0) =~= e);
        }
    }
    all
}

/// Whether `a` and `b` hold the same literals in the same order.
fn same_vector(a: &Vec<i32>, b: &Vec<i32>) -> (r: bool)
    ensures
        r == (a@ == b@),
{
    if a.len() != b.len() {
        return false;
    }
    let mut i: usize = 0;
    while i < a.len()
        invariant
            a@.len() == b@.len(),
            i <= a@.len(),
            forall|j: int| 0 <= j < i ==> #[trigger] a@[j] == b@[j],
        decreases a@.len() - i,
    {
        if a[i] != b[i] {
            return false;
        }
        i = i + 1;
    }
    assert(a@ =~= b@);
    true
}

/// Whether `v` is one of the vectors of `list`.
fn contains_vector(list: &Vec<Vec<i32>>, v: &Vec<i32>) -> (r: bool)
    ensures
        r == views(list@).contains(v@),
{
    let mut i: usize = 0;
    while i < list.len()
        invariant
            i <= list@.len(),
            forall|j: int| 0 <= j < i ==> #[trigger] list@[j]@ != v@,
        decreases list@.len() - i,
    {
        if same_vector(&list[i], v) {
            assert(views(list@)[i as int] == v@);
            return true;
        }
        i = i + 1;
    }
    proof {
        if views(list@).contains(v@) {
            let k = choose|k: int| 0 <= k < views(list@).len() && views(list@)[k] == v@;
            assert(list@[k]@ == v@);
        }
    }
    false
}

/// A sign choice over `1..=n` is fixed by the cells it fills.
proof fn lemma_signs_determine(a: Seq<i32>, b: Seq<i32>, n: nat)
    requires
        n <= i32::MAX,
        is_sign_choice(a, one_to(n)),
        is_sign_choice(b, one_to(n)),
        signs(a) == signs(b),
    ensures
        a == b,
{
    assert forall|j: int| 0 <= j < a.len() implies #[trigger] a[j] == b[j] by {
        assert(signs(a)[j] == signs(b)[j]);
        assert(signs(a)[j] == (a[j] > 0));
        assert(signs(b)[j] == (b[j] > 0));
        assert(one_to(n)[j] == j + 1);
        assert(a[j] == one_to(n)[j] || a[j] == -one_to(n)[j]);
        assert(b[j] == one_to(n)[j] || b[j] == -one_to(n)[j]);
    }
    assert(a =~= b);
}

/// Under a sign choice over `1..=n`, the negation of another such choice `w`
/// holds exactly when the two differ.
proof fn lemma_negation_forbids(v: Seq<i32>, w: Seq<i32>, n: nat)
    requires
        n <= i32::MAX,
        is_sign_choice(v, one_to(n)),
        is_sign_choice(w, one_to(n)),
    ensures
        satisfies(v, negated(w)) == (v != w),
{
    let c = negated(w);
    if v != w {
        let j = choose|j: int| 0 <= j < v.len() && v[j] != w[j];
        if !(0 <= j < v.len() && v[j] != w[j]) {
            assert(v =~= w);
        }
        assert(v[j] == one_to(n)[j] || v[j] == -one_to(n)[j]);
        assert(w[j] == one_to(n)[j] || w[j] == -one_to(n)[j]);
        assert(c[j] == v[j]);
        assert(v.contains(c[j]));
    } else {
        if satisfies(v, c) {
            let j = choose|j: int| 0 <= j < c.len() && v.contains(#[trigger] c[j]);
            let i = choose|i: int| 0 <= i < v.len() && v[i] == c[j];
            assert(one_to(n)[i] == i + 1 && one_to(n)[j] == j + 1);
            assert(v[i] == i + 1 || v[i] == -(i + 1));
            assert(w[j] == j + 1 || w[j] == -(j + 1));
        }
    }
}

/// The clauses for one line of `size` cells with clues `sets`: the negation
/// of every vector of `all_combos` whose filled cells do not hold the runs.
/// Over the full truth table, an assignment meets them all exactly when it
/// holds the runs.
pub fn make_group_cnf(all_combos: &[Vec<i32>], size: usize, sets: &[usize]) -> (cnf: Vec<Vec<i32>>)
    requires
        size <= i32::MAX,
        clues_positive(sets@),
        forall|k: int| 0 <= k < all_combos@.len() ==> is_sign_choice(#[trigger] all_combos@[k]@, one_to(size as nat)),
    ensures
        views(cnf@) == forbidden_clauses(views(all_combos@), sets@),
        forall|c: Seq<i32>|
            #[trigger] views(cnf@).contains(c) <==> exists|k: int|
                0 <= k < all_combos@.len() && !line_valid(signs(#[trigger] all_combos@[k]@), sets@) && c == negated(all_combos@[k]@),
        (forall|v: Seq<i32>| is_sign_choice(v, one_to(size as nat)) ==> #[trigger] views(all_combos@).contains(v))
            ==> forall|v: Seq<i32>|
            #[trigger] is_sign_choice(v, one_to(size as nat)) ==> (satisfies_all(v, views(cnf@)) <==> line_valid(signs(v), sets@)),
{
    let vars = one_to_n(size);
    let ghost n = size as nat;
    let possible = make_possible_combos(0, vars, sets);
    proof {
        assert forall|i: int| 0 <= i < possible@.len() implies is_sign_choice(#[trigger] possible@[i]@, one_to(n)) by {
            let r = possible@[i]@;
            assert forall|j: int| 0 <= j < r.len() implies (#[trigger] r[j] == one_to(n)[j] || r[j] == -one_to(n)[j]) by {}
        }
        assert forall|line: Seq<bool>|
            line.len() == size && #[trigger] valid_from(line, 0, sets@)
            implies exists|i: int| 0 <= i < possible@.len() && signs(#[trigger] possible@[i]@) == line by {
            assert(line.subrange(0, 0) =~= signs(one_to(n)).subrange(0, 0));
        }
    }
    let mut cnf: Vec<Vec<i32>> = Vec::new();
    let mut i: usize = 0;
    assert(views(cnf@) =~= forbidden_clauses(views(all_combos@).subrange(0, 0), sets@));
    while i < all_combos.len()
        invariant
            i <= all_combos@.len(),
            size <= i32::MAX,
            n == size,
            clues_positive(sets@),
            forall|k: int| 0 <= k < all_combos@.len() ==> is_sign_choice(#[trigger] all_combos@[k]@, one_to(n)),
            forall|i: int| 0 <= i < possible@.len() ==> is_sign_choice(#[trigger] possible@[i]@, one_to(n)),
            forall|i: int| 0 <= i < possible@.len() ==> line_valid(signs(#[trigger] possible@[i]@), sets@),
            forall|line: Seq<bool>|
                line.len() == size && #[trigger] valid_from(line, 0, sets@)
                    ==> exists|i: int| 0 <= i < possible@.len() && signs(#[trigger] possible@[i]@) == line,
            forall|c: Seq<i32>|
                #[trigger] views(cnf@).contains(c) <==> exists|k: int|
                    0 <= k < i && !line_valid(signs(#[trigger] all_combos@[k]@), sets@) && c == negated(all_combos@[k]@),
            views(cnf@) == forbidden_clauses(views(all_combos@).subrange(0, i as int), sets@),
        decreases all_combos@.len() - i,
    {
        let combo = &all_combos[i];
        let is_possible = contains_vector(&possible, combo);
        let ghost before = cnf@;
        let ghost w = combo@;
        proof {
            let l = signs(w);
            if is_possible {
                let k = choose|k: int| 0 <= k < views(possible@).len() && views(possible@)[k] == w;
                assert(possible@[k]@ == w);
            } else if line_valid(l, sets@) {
                assert(l.subrange(0, 0) == signs(possible@[0]@).subrange(0, 0)) by {
                    assert(l.subrange(0, 0) =~= Seq::<bool>::empty());
                }
                assert(l.len() == size);
                let k = choose|k: int| 0 <= k < possible@.len() && signs(#[trigger] possible@[k]@) == l;
                lemma_signs_determine(possible@[k]@, w, n);
                assert(views(possible@)[k] == w);
            }
        }
        if !is_possible {
            proof {
                assert forall|j: int| 0 <= j < w.len() implies #[trigger] w[j] > i32::MIN by {
                    assert(w[j] == one_to(n)[j] || w[j] == -one_to(n)[j]);
                }
            }
            let clause = negate(combo.clone());
            cnf.push(clause);
            proof {
                assert(views(cnf@) == views(before).push(negated(w)));
            }
        } else {
            assert(views(cnf@) == views(before));
        }
        proof {
            let sub = views(all_combos@).subrange(0, i + 1);
            assert(sub.drop_last() =~= views(all_combos@).subrange(0, i as int));
            assert(sub.last() == w);
            assert(views(cnf@) =~= forbidden_clauses(sub, sets@));
            assert forall|c: Seq<i32>|
                #[trigger] views(cnf@).contains(c) <==> exists|k: int|
                    0 <= k < i + 1 && !line_valid(signs(#[trigger] all_combos@[k]@), sets@) && c == negated(all_combos@[k]@) by {
                if views(cnf@).contains(c) {
                    let m = choose|m: int| 0 <= m < views(cnf@).len() && views(cnf@)[m] == c;
                    if m < before.len() {
                        assert(views(before)[m] == c);
                        assert(views(before).contains(c));
                    } else {
                        assert(!line_valid(signs(all_combos@[i as int]@), sets@));
                    }
                }
                if exists|k: int|
                    0 <= k < i + 1 && !line_valid(signs(#[trigger] all_combos@[k]@), sets@) && c == negated(all_combos@[k]@) {
                    let k = choose|k: int|
                        0 <= k < i + 1 && !line_valid(signs(#[trigger] all_combos@[k]@), sets@) && c == negated(all_combos@[k]@);
                    if k < i {
                        assert(views(before).contains(c));
                        let m = choose|m: int| 0 <= m < views(before).len() && views(before)[m] == c;
                        assert(views(cnf@)[m] == c);
                    } else {
                        assert(views(cnf@)[views(cnf@).len() - 1] == c);
                    }
                }
            }
        }
        i = i + 1;
    }
    proof {
        assert(views(all_combos@).subrange(0, i as int) =~= views(all_combos@));
        if forall|v: Seq<i32>| is_sign_choice(v, one_to(n)) ==> #[trigger] views(all_combos@).contains(v) {
            assert forall|v: Seq<i32>| #[trigger] is_sign_choice(v, one_to(n)) implies (satisfies_all(v, views(cnf@)) <==> line_valid(signs(v), sets@)) by {
                if line_valid(signs(v), sets@) {
                    assert forall|m: int| 0 <= m < views(cnf@).len() implies satisfies(v, #[trigger] views(cnf@)[m]) by {
                        let c = views(cnf@)[m];
                        assert(views(cnf@).contains(c));
                        let k = choose|k: int|
                            0 <= k < all_combos@.len() && !line_valid(signs(#[trigger] all_combos@[k]@), sets@) && c == negated(all_combos@[k]@);
                        lemma_negation_forbids(v, all_combos@[k]@, n);
                    }
                } else {
                    assert(views(all_combos@).contains(v));
                    let k = choose|k: int| 0 <= k < views(all_combos@).len() && views(all_combos@)[k] == v;
                    assert(all_combos@[k]@ == v);
                    let c = negated(v);
                    assert(views(cnf@).contains(c));
                    let m = choose|m: int| 0 <= m < views(cnf@).len() && views(cnf@)[m] == c;
                    lemma_negation_forbids(v, v, n);
                }
            }
        }
    }
    cnf
}

/// The first filled cell at or after `i`, or the line's length if none is.
pub open spec fn next_filled(line: Seq<bool>, i: int) -> int
    decreases line.len() - i,
{
    if i >= line.len() {
        line.len() as int
    } else if line[i] {
        i
    } else {
        next_filled(line, i + 1)
    }
}

/// The first empty cell at or after `i`, or the line's length if none is.
pub open spec fn run_end(line: Seq<bool>, i: int) -> int
    decreases line.len() - i,
{
    if i >= line.len() {
        line.len() as int
    } else if !line[i] {
        i
    } else {
        run_end(line, i + 1)
    }
}

proof fn lemma_next_filled(line: Seq<bool>, i: int)
    requires
        0 <= i <= line.len(),
    ensures
        i <= next_filled(line, i) <= line.len(),
        forall|j: int| i <= j < next_filled(line, i) ==> !#[trigger] line[j],
        next_filled(line, i) < line.len() ==> line[next_filled(line, i)],
    decreases line.len() - i,
{
    if i < line.len() && !line[i] {
        lemma_next_filled(line, i + 1);
    }
}

proof fn lemma_run_end(line: Seq<bool>, i: int)
    requires
        0 <= i <= line.len(),
    ensures
        i <= run_end(line, i) <= line.len(),
        forall|j: int| i <= j < run_end(line, i) ==> #[trigger] line[j],
        run_end(line, i) < line.len() ==> !line[run_end(line, i)],
    decreases line.len() - i,
{
    if i < line.len() && line[i] {
        lemma_run_end(line, i + 1);
    }
}

/// Scanning for the next run: the runs from `pos` on hold `clues` exactly
/// when the next maximal run has the first clue's length and the rest of the
/// line holds the other clues.
proof fn lemma_scan_step(line: Seq<bool>, pos: int, clues: Seq<usize>)
    requires
        0 <= pos <= line.len(),
        clues.len() > 0,
        clues[0] >= 1,
    ensures
        ({
            let a = next_filled(line, pos);
            let e = run_end(line, a);
            valid_from(line, pos, clues) == (e - a == clues[0] && valid_from(line, e, clues.drop_first()))
        }),
{
    let a = next_filled(line, pos);
    lemma_next_filled(line, pos);
    lemma_skip_empty(line, pos, a, clues);
    let e = run_end(line, a);
    lemma_run_end(line, a);
    let c = clues[0] as int;
    let rest = clues.drop_first();
    if a == line.len() {
        return;
    }
    if e - a == c {
        lemma_run_filled(line, a + 1, c - 1, rest);
        if e < line.len() {
            assert(valid_from(line, e, rest) == valid_from(line, e + 1, rest));
        }
    } else if valid_from(line, a, clues) {
        lemma_run_fits(line, a + 1, c - 1, rest);
        if e < a + c {
            assert(line[e]);
        } else {
            assert(line[a + c]);
        }
    }
}

/// Whether the first run from `from` on has exactly `set_size` cells; if so,
/// where it ends.
pub fn check_first_set(values: &[bool], from: usize, set_size: usize) -> (r: Option<usize>)
    requires
        from <= values@.len(),
    ensures
        ({
            let a = next_filled(values@, from as int);
            let e = run_end(values@, a);
            r == if e - a == set_size { Some(e as usize) } else { None::<usize> }
        }),
{
    let ghost line = values@;
    let mut i: usize = from;
    while i < values.len() && !values[i]
        invariant
            from <= i <= line.len(),
            line == values@,
            next_filled(line, i as int) == next_filled(line, from as int),
        decreases line.len() - i,
    {
        i = i + 1;
    }
    let ghost a = i as int;
    let mut counter: usize = 0;
    while i < values.len() && values[i]
        invariant
            0 <= a <= i <= line.len(),
            line == values@,
            a == next_filled(line, from as int),
            counter == i - a,
            run_end(line, i as int) == run_end(line, a),
        decreases line.len() - i,
    {
        i = i + 1;
        counter = counter + 1;
    }
    if set_size != counter {
        None
    } else {
        Some(i)
    }
}

/// Whether `values` holds exactly the runs `rules`, in order, and nothing else.
pub fn check(values: &[bool], rules: &[usize]) -> (r: bool)
    requires
        clues_positive(rules@),
    ensures
        r == line_valid(values@, rules@),
{
    let ghost line = values@;
    let n = values.len();
    let mut pos: usize = 0;
    let mut k: usize = 0;
    assert(rules@.skip(0) =~= rules@);
    while k < rules.len()
        invariant
            pos <= line.len(),
            line == values@,
            n == line.len(),
            k <= rules@.len(),
            clues_positive(rules@),
            line_valid(line, rules@) == valid_from(line, pos as int, rules@.skip(k as int)),
        decreases rules@.len() - k,
    {
        let rule = rules[k];
        proof {
            assert(rules@.skip(k as int)[0] == rules@[k as int]);
            lemma_scan_step(line, pos as int, rules@.skip(k as int));
            assert(rules@.skip(k as int).drop_first() =~= rules@.skip(k + 1));
            lemma_next_filled(line, pos as int);
            lemma_run_end(line, next_filled(line, pos as int));
        }
        match check_first_set(values, pos, rule) {
            None => {
                return false;
            },
            Some(index) => {
                proof {
                    let a = next_filled(line, pos as int);
                    assert(index == run_end(line, a));
                    assert(valid_from(line, pos as int, rules@.skip(k as int)) == valid_from(
                        line,
                        index as int,
                        rules@.skip(k as int).drop_first(),
                    ));
                }
                pos = index;
            },
        }
        k = k + 1;
    }
    proof {
        assert(rules@.skip(k as int) =~= Seq::<usize>::empty());
    }
    let mut j: usize = pos;
    while j < values.len()
        invariant
            pos <= j <= line.len(),
            line == values@,
            line_valid(line, rules@) == valid_from(line, pos as int, Seq::<usize>::empty()),
            forall|i: int| pos <= i < j ==> !#[trigger] line[i],
        decreases line.len() - j,
    {
        if values[j] {
            proof {
                if valid_from(line, pos as int, Seq::<usize>::empty()) {
                    lemma_no_runs(line, pos as int, j as int, Seq::<usize>::empty());
                }
            }
            return false;
        }
        j = j + 1;
    }
    proof {
        lemma_skip_empty(line, pos as int, line.len() as int, Seq::<usize>::empty());
    }
    true
}

} // verus!
