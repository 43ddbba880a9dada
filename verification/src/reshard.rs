use vstd::prelude::*;
use crate::error::Error;
use crate::util::{
    share, prefix_of_shares, seq_sum, seq_sum_int, to_ints, lemma_seq_sum_to_ints,
    lemma_sum_int_update, lemma_le_and_sum_eq, lemma_prefix_step, lemma_prefix_total,
};
use crate::create::lemma_prefix_mono;

verus! {

/// One planned migration batch: `count` slots leave the master at index
/// `from` for the master at index `to`.
pub open spec fn apply_move(counts: Seq<int>, m: (usize, usize, usize)) -> Seq<int> {
    let c1 = counts.update(m.0 as int, counts[m.0 as int] - m.2);
    c1.update(m.1 as int, c1[m.1 as int] + m.2)
}

/// The per-master slot counts after the moves are applied in order.
pub open spec fn apply_moves(counts: Seq<int>, moves: Seq<(usize, usize, usize)>) -> Seq<int>
    decreases moves.len(),
{
    if moves.len() == 0 {
        counts
    } else {
        apply_move(apply_moves(counts, moves.drop_last()), moves.last())
    }
}

/// Every move names masters inside the table.
pub open spec fn moves_in_range(moves: Seq<(usize, usize, usize)>, n: int) -> bool {
    forall|m: int| 0 <= m < moves.len() ==> (#[trigger] moves[m]).0 < n && moves[m].1 < n
}

/// Applying in-range moves keeps the table length.
pub proof fn lemma_apply_moves_len(counts: Seq<int>, moves: Seq<(usize, usize, usize)>)
    requires
        moves_in_range(moves, counts.len() as int),
    ensures
        apply_moves(counts, moves).len() == counts.len(),
    decreases moves.len(),
{
    if moves.len() > 0 {
        assert forall|m: int|
            0 <= m < moves.drop_last().len() implies (#[trigger] moves.drop_last()[m]).0
            < counts.len() && moves.drop_last()[m].1 < counts.len() by {
            assert(moves.drop_last()[m] == moves[m]);
        }
        lemma_apply_moves_len(counts, moves.drop_last());
    }
}

/// A move takes from one entry exactly what it gives another, so the total
/// never changes.
pub proof fn lemma_apply_moves_sum(counts: Seq<int>, moves: Seq<(usize, usize, usize)>)
    requires
        moves_in_range(moves, counts.len() as int),
    ensures
        seq_sum_int(apply_moves(counts, moves)) == seq_sum_int(counts),
    decreases moves.len(),
{
    if moves.len() > 0 {
        assert forall|m: int|
            0 <= m < moves.drop_last().len() implies (#[trigger] moves.drop_last()[m]).0
            < counts.len() && moves.drop_last()[m].1 < counts.len() by {
            assert(moves.drop_last()[m] == moves[m]);
        }
        lemma_apply_moves_sum(counts, moves.drop_last());
        lemma_apply_moves_len(counts, moves.drop_last());
        let s1 = apply_moves(counts, moves.drop_last());
        let mv = moves.last();
        lemma_sum_int_update(s1, mv.0 as int, s1[mv.0 as int] - mv.2);
        let s2 = s1.update(mv.0 as int, s1[mv.0 as int] - mv.2);
        lemma_sum_int_update(s2, mv.1 as int, s2[mv.1 as int] + mv.2);
    }
}

/// Plans the rebalance of a set of masters from their current slot counts:
/// the moves, applied in order, leave every master with exactly its share of
/// the total (so within one of the mean), each move takes at least one slot
/// from a master above its share and gives it to one below its share, and no
/// move runs between two masters on the same side of their shares. Fails
/// only on an empty master table or a total beyond the machine's range.
pub fn plan_rebalance(counts: &Vec<usize>) -> (r: Result<Vec<(usize, usize, usize)>, Error>)
    ensures
        r is Err <==> (counts@.len() == 0 || seq_sum(counts@) > usize::MAX),
        r is Err ==> r == Result::<Vec<(usize, usize, usize)>, Error>::Err(Error::InvalidInput),
        r is Ok ==> {
            let n = counts@.len() as int;
            let total = seq_sum(counts@);
            let end = apply_moves(to_ints(counts@), r->Ok_0@);
            &&& end.len() == n
            &&& forall|k: int| 0 <= k < n ==> #[trigger] end[k] == share(total, n, k)
            &&& forall|m: int|
                0 <= m < r->Ok_0@.len() ==> {
                    let mv = #[trigger] r->Ok_0@[m];
                    &&& mv.0 < n
                    &&& mv.1 < n
                    &&& mv.0 != mv.1
                    &&& mv.2 >= 1
                    &&& counts@[mv.0 as int] > share(total, n, mv.0 as int)
                    &&& counts@[mv.1 as int] < share(total, n, mv.1 as int)
                }
        },
{
    let n = counts.len();
    if n == 0 {
        return Err(Error::InvalidInput);
    }
    let mut total: usize = 0;
    let mut i: usize = 0;
    while i < n
        invariant
            n == counts@.len(),
            i <= n,
            total == seq_sum(counts@.take(i as int)),
        decreases n - i,
    {
        proof {
            assert(counts@.take(i + 1).drop_last() =~= counts@.take(i as int));
            assert(counts@.take(i + 1).last() == counts@[i as int]);
        }
        total = match total.checked_add(counts[i]) {
            Some(t) => t,
            None => {
                proof {
                    lemma_seq_sum_take_le(counts@, i + 1);
                }
                return Err(Error::InvalidInput);
            },
        };
        i = i + 1;
    }
    proof {
        assert(counts@.take(n as int) =~= counts@);
    }
    let targets = match crate::util::divide(total, n) {
        Ok(t) => t,
        Err(_) => {
            return Err(Error::InvalidInput);
        },
    };
    let mut cur: Vec<usize> = Vec::new();
    let mut i2: usize = 0;
    while i2 < n
        invariant
            n == counts@.len(),
            i2 <= n,
            cur@ == counts@.take(i2 as int),
        decreases n - i2,
    {
        cur.push(counts[i2]);
        proof {
            assert(counts@.take(i2 + 1) =~= counts@.take(i2 as int).push(counts@[i2 as int]));
        }
        i2 = i2 + 1;
    }
    proof {
        assert(counts@.take(n as int) =~= counts@);
    }
    let ghost cn = counts@;
    let ghost tl = total as int;
    let ghost nn = n as int;
    let mut moves: Vec<(usize, usize, usize)> = Vec::new();
    let mut si: usize = 0;
    let mut dj: usize = 0;
    while si < n && dj < n
        invariant
            cn == counts@,
            nn == cn.len(),
            n == cn.len(),
            tl == seq_sum(cn),
            tl == total,
            targets@.len() == nn,
            forall|k: int| 0 <= k < nn ==> #[trigger] targets@[k] == share(tl, nn, k),
            cur@.len() == nn,
            si <= n,
            dj <= n,
            to_ints(cur@) == apply_moves(to_ints(cn), moves@),
            forall|k: int|
                0 <= k < nn ==> ((cn[k] <= #[trigger] cur@[k] || targets@[k] <= cur@[k]) && (
                cur@[k] <= cn[k] || cur@[k] <= targets@[k])),
            forall|k: int| 0 <= k < si ==> #[trigger] cur@[k] <= targets@[k],
            forall|k: int| 0 <= k < dj ==> #[trigger] cur@[k] >= targets@[k],
            forall|m: int|
                0 <= m < moves@.len() ==> {
                    let mv = #[trigger] moves@[m];
                    &&& mv.0 < nn
                    &&& mv.1 < nn
                    &&& mv.0 != mv.1
                    &&& mv.2 >= 1
                    &&& cn[mv.0 as int] > share(tl, nn, mv.0 as int)
                    &&& cn[mv.1 as int] < share(tl, nn, mv.1 as int)
                },
        decreases 2 * n - si - dj, (if si < n && cur@[si as int] > targets@[si as int] {
            cur@[si as int] - targets@[si as int]
        } else {
            0int
        }),
    {
        if cur[si] <= targets[si] {
            si = si + 1;
        } else if cur[dj] >= targets[dj] {
            dj = dj + 1;
        } else {
            let a = cur[si] - targets[si];
            let b = targets[dj] - cur[dj];
            let amt = if a < b {
                a
            } else {
                b
            };
            let ghost premoves = moves@;
            let ghost precur = cur@;
            let ni = cur[si] - amt;
            let nj = cur[dj] + amt;
            cur[si] = ni;
            cur[dj] = nj;
            moves.push((si, dj, amt));
            proof {
                assert(moves@.drop_last() =~= premoves);
                assert(cur@ =~= precur.update(si as int, ni as usize).update(dj as int, nj as usize));
                assert(to_ints(cur@) =~= apply_move(
                    apply_moves(to_ints(cn), premoves),
                    (si, dj, amt),
                ));
            }
        }
    }
    proof {
        let fin = to_ints(cur@);
        let tg = to_ints(targets@);
        assert(moves_in_range(moves@, nn));
        lemma_apply_moves_sum(to_ints(cn), moves@);
        lemma_seq_sum_to_ints(cn);
        lemma_seq_sum_to_ints(targets@);
        lemma_seq_sum_to_ints(cur@);
        assert(seq_sum_int(fin) == tl);
        assert(seq_sum_int(tg) == tl) by {
            assert(seq_sum(targets@) == tl);
        }
        if si == n {
            assert forall|k: int| 0 <= k < nn implies fin[k] <= tg[k] by {
                assert(cur@[k] <= targets@[k]);
            }
            lemma_le_and_sum_eq(fin, tg);
        } else {
            assert forall|k: int| 0 <= k < nn implies tg[k] <= fin[k] by {
                assert(cur@[k] >= targets@[k]);
            }
            lemma_le_and_sum_eq(tg, fin);
        }
        assert forall|k: int| 0 <= k < nn implies #[trigger] apply_moves(to_ints(cn), moves@)[k]
            == share(tl, nn, k) by {
            assert(fin[k] == tg[k]);
            assert(tg[k] == targets@[k] as int);
        }
    }
    Ok(moves)
}

/// Assigns the first `count` of a departing or over-full master's slots to
/// `n_targets` other masters, each target receiving exactly its share of the
/// count, in order: the plan lists, for each of the first `count` slots in
/// turn, the target it goes to, targets taking their contiguous runs from
/// first to last.
pub fn plan_spread(slots: &Vec<u16>, n_targets: usize, count: usize) -> (r: Result<
    Vec<(usize, u16)>,
    Error,
>)
    ensures
        r is Err <==> (n_targets == 0 || count > slots@.len()),
        r is Err ==> r == Result::<Vec<(usize, u16)>, Error>::Err(Error::InvalidInput),
        r is Ok ==> {
            &&& r->Ok_0@.len() == count
            &&& forall|x: int|
                0 <= x < count ==> {
                    let mv = #[trigger] r->Ok_0@[x];
                    &&& mv.1 == slots@[x]
                    &&& mv.0 < n_targets
                    &&& prefix_of_shares(count as int, n_targets as int, mv.0 as int) <= x
                    &&& x < prefix_of_shares(count as int, n_targets as int, mv.0 as int + 1)
                }
        },
{
    if n_targets == 0 || count > slots.len() {
        return Err(Error::InvalidInput);
    }
    let dist = match crate::util::divide(count, n_targets) {
        Ok(d) => d,
        Err(_) => {
            return Err(Error::InvalidInput);
        },
    };
    let ghost cnt = count as int;
    let ghost nt = n_targets as int;
    let mut plan: Vec<(usize, u16)> = Vec::new();
    let mut pos: usize = 0;
    let mut k: usize = 0;
    while k < n_targets
        invariant
            cnt == count as int,
            nt == n_targets as int,
            n_targets > 0,
            count <= slots@.len(),
            dist@.len() == nt,
            forall|j: int| 0 <= j < nt ==> #[trigger] dist@[j] == share(cnt, nt, j),
            k <= n_targets,
            pos == prefix_of_shares(cnt, nt, k as int),
            pos <= count,
            plan@.len() == pos,
            forall|x: int|
                0 <= x < plan@.len() ==> {
                    let mv = #[trigger] plan@[x];
                    &&& mv.1 == slots@[x]
                    &&& mv.0 < nt
                    &&& prefix_of_shares(cnt, nt, mv.0 as int) <= x
                    &&& x < prefix_of_shares(cnt, nt, mv.0 as int + 1)
                },
        decreases n_targets - k,
    {
        proof {
            lemma_prefix_step(cnt, nt, k as int);
            lemma_prefix_mono(cnt, nt, k as int + 1, nt);
            lemma_prefix_total(cnt, nt);
        }
        let goal = dist[k];
        let mut c: usize = 0;
        while c < goal
            invariant
                cnt == count as int,
                nt == n_targets as int,
                count <= slots@.len(),
                k < nt,
                c <= goal,
                goal == share(cnt, nt, k as int),
                pos == prefix_of_shares(cnt, nt, k as int) + c,
                prefix_of_shares(cnt, nt, k as int) + goal == prefix_of_shares(
                    cnt,
                    nt,
                    k as int + 1,
                ),
                prefix_of_shares(cnt, nt, k as int + 1) <= cnt,
                pos <= count,
                plan@.len() == pos,
                forall|x: int|
                    0 <= x < plan@.len() ==> {
                        let mv = #[trigger] plan@[x];
                        &&& mv.1 == slots@[x]
                        &&& mv.0 < nt
                        &&& prefix_of_shares(cnt, nt, mv.0 as int) <= x
                        &&& x < prefix_of_shares(cnt, nt, mv.0 as int + 1)
                    },
            decreases goal - c,
        {
            plan.push((k, slots[pos]));
            pos = pos + 1;
            c = c + 1;
        }
        k = k + 1;
    }
    proof {
        lemma_prefix_total(cnt, nt);
    }
    Ok(plan)
}

/// A prefix of non-negative entries never sums to more than the whole.
pub proof fn lemma_seq_sum_take_le(s: Seq<usize>, k: int)
    requires
        0 <= k <= s.len(),
    ensures
        seq_sum(s.take(k)) <= seq_sum(s),
    decreases s.len() - k,
{
    if k == s.len() {
        assert(s.take(k) =~= s);
    } else {
        assert(s.take(k + 1).drop_last() =~= s.take(k));
        assert(s.take(k + 1).last() == s[k]);
        lemma_seq_sum_take_le(s, k + 1);
    }
}

} // verus!
