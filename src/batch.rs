//! Record batches and schemas, and reshaping of batches before transport.
use vstd::prelude::*;
use vstd::slice::slice_to_vec;

verus! {

/// A batch of rows; every row holds one value per column of its schema.
#[derive(Debug)]
pub struct RecordBatch {
    pub rows: Vec<Vec<u64>>,
}

/// The column names of the batches of one payload.
#[derive(Debug)]
pub struct Schema {
    pub fields: Vec<String>,
}

impl View for RecordBatch {
    type V = Seq<Seq<u64>>;

    open spec fn view(&self) -> Seq<Seq<u64>> {
        self.rows@.map_values(|r: Vec<u64>| r@)
    }
}

impl View for Schema {
    type V = Seq<Seq<char>>;

    open spec fn view(&self) -> Seq<Seq<char>> {
        self.fields@.map_values(|f: String| f@)
    }
}

/// The views of a sequence of batches.
pub open spec fn batches_view(bs: Seq<RecordBatch>) -> Seq<Seq<Seq<u64>>> {
    bs.map_values(|b: RecordBatch| b@)
}

/// Every row of every batch has `width` values.
pub open spec fn conforms(bs: Seq<Seq<Seq<u64>>>, width: nat) -> bool {
    forall|i: int, j: int|
        0 <= i < bs.len() && 0 <= j < bs[i].len() ==> (#[trigger] bs[i][j]).len() == width
}

/// The rows of `bs`, batch after batch.
pub open spec fn flatten(bs: Seq<Seq<Seq<u64>>>) -> Seq<Seq<u64>>
    decreases bs.len(),
{
    if bs.len() == 0 {
        Seq::empty()
    } else {
        flatten(bs.drop_last()) + bs.last()
    }
}

/// The rows that round-robin selection sends to partition `p` of `n`: those
/// whose position is `p` modulo `n`, in their order.
pub open spec fn round_robin(rows: Seq<Seq<u64>>, n: nat, p: int) -> Seq<Seq<u64>>
    decreases rows.len(),
{
    if rows.len() == 0 {
        Seq::empty()
    } else {
        let prev = round_robin(rows.drop_last(), n, p);
        if (rows.len() - 1) % (n as int) == p {
            prev.push(rows.last())
        } else {
            prev
        }
    }
}

/// The sum of the row counts of partitions `0..upto`.
pub open spec fn round_robin_total(rows: Seq<Seq<u64>>, n: nat, upto: nat) -> nat
    decreases upto,
{
    if upto == 0 {
        0
    } else {
        round_robin_total(rows, n, (upto - 1) as nat) + round_robin(rows, n, upto - 1).len()
    }
}

/// The batches of `chunks` hold `rows` in order, `size` rows each but the
/// last, which holds between one and `size`.
pub open spec fn chunked(chunks: Seq<Seq<Seq<u64>>>, rows: Seq<Seq<u64>>, size: nat) -> bool {
    &&& flatten(chunks) == rows
    &&& forall|i: int| 0 <= i < chunks.len() - 1 ==> (#[trigger] chunks[i]).len() == size
    &&& chunks.len() > 0 ==> 1 <= chunks.last().len() <= size
}

proof fn lemma_round_robin_total_push(rows: Seq<Seq<u64>>, x: Seq<u64>, n: nat, upto: nat)
    requires
        n >= 1,
    ensures
        round_robin_total(rows.push(x), n, upto) == round_robin_total(rows, n, upto) + if rows.len() as int % (n as int)
            < upto as int {
            1nat
        } else {
            0nat
        },
    decreases upto,
{
    assert(rows.push(x).drop_last() =~= rows);
    if upto > 0 {
        lemma_round_robin_total_push(rows, x, n, (upto - 1) as nat);
    }
}

/// Round-robin repartitioning keeps every row: the partitions together hold
/// as many rows as the input, for any partition count of at least one.
pub proof fn lemma_repartition_keeps_rows(rows: Seq<Seq<u64>>, n: nat)
    requires
        n >= 1,
    ensures
        round_robin_total(rows, n, n) == rows.len(),
    decreases rows.len(),
{
    if rows.len() == 0 {
        assert forall|upto: nat| upto <= n implies #[trigger] round_robin_total(rows, n, upto) == 0 by {
            lemma_round_robin_total_empty(rows, n, upto);
        }
    } else {
        lemma_repartition_keeps_rows(rows.drop_last(), n);
        lemma_round_robin_total_push(rows.drop_last(), rows.last(), n, n);
        assert(rows.drop_last().push(rows.last()) =~= rows);
    }
}

proof fn lemma_round_robin_total_empty(rows: Seq<Seq<u64>>, n: nat, upto: nat)
    requires
        rows.len() == 0,
    ensures
        round_robin_total(rows, n, upto) == 0,
    decreases upto,
{
    if upto > 0 {
        lemma_round_robin_total_empty(rows, n, (upto - 1) as nat);
    }
}

proof fn lemma_flatten_push(bs: Seq<Seq<Seq<u64>>>, b: Seq<Seq<u64>>)
    ensures
        flatten(bs.push(b)) == flatten(bs) + b,
{
    assert(bs.push(b).drop_last() =~= bs);
}

fn copy_row(row: &Vec<u64>) -> (r: Vec<u64>)
    ensures
        r@ == row@,
{
    slice_to_vec(row.as_slice())
}

/// Splits the rows of `batches` round-robin into `target_partitions`
/// batches: row `r` of the input goes to partition `r % target_partitions`.
pub fn repartition(batches: &Vec<RecordBatch>, target_partitions: usize) -> (r: Vec<RecordBatch>)
    requires
        target_partitions >= 1,
    ensures
        r@.len() == target_partitions,
        forall|p: int|
            0 <= p < target_partitions ==> (#[trigger] r@[p])@ == round_robin(
                flatten(batches_view(batches@)),
                target_partitions as nat,
                p,
            ),
{
    let n = target_partitions;
    let mut out: Vec<RecordBatch> = Vec::new();
    let mut p: usize = 0;
    while p < n
        invariant
            p <= n,
            out@.len() == p,
            forall|q: int| 0 <= q < p ==> (#[trigger] out@[q])@ == Seq::<Seq<u64>>::empty(),
        decreases n - p,
    {
        out.push(RecordBatch { rows: Vec::new() });
        assert(out@[p as int]@ =~= Seq::<Seq<u64>>::empty());
        p = p + 1;
    }
    let ghost all = batches_view(batches@);
    let ghost done: Seq<Seq<u64>> = Seq::empty();
    assert(all.take(0) =~= Seq::<Seq<Seq<u64>>>::empty());
    assert(done.len() as int % (n as int) == 0) by {
        vstd::arithmetic::div_mod::lemma_small_mod(0nat, n as nat);
    }
    let mut pos: usize = 0;
    let mut i: usize = 0;
    while i < batches.len()
        invariant
            n >= 1,
            i <= batches@.len(),
            all == batches_view(batches@),
            done == flatten(all.take(i as int)),
            pos < n,
            pos == done.len() as int % (n as int),
            out@.len() == n,
            forall|q: int| 0 <= q < n ==> (#[trigger] out@[q])@ == round_robin(done, n as nat, q),
        decreases batches.len() - i,
    {
        let rows = &batches[i].rows;
        let mut j: usize = 0;
        while j < rows.len()
            invariant
                n >= 1,
                i < batches@.len(),
                rows == batches@[i as int].rows,
                all == batches_view(batches@),
                j <= rows@.len(),
                done == flatten(all.take(i as int)) + all[i as int].take(j as int),
                pos < n,
                pos == done.len() as int % (n as int),
                out@.len() == n,
                forall|q: int| 0 <= q < n ==> (#[trigger] out@[q])@ == round_robin(done, n as nat, q),
            decreases rows.len() - j,
        {
            let row = copy_row(&rows[j]);
            let mut part = RecordBatch { rows: Vec::new() };
            out.set_and_swap(pos, &mut part);
            let ghost before = part@;
            part.rows.push(row);
            assert(part@ =~= before.push(rows@[j as int]@));
            out.set_and_swap(pos, &mut part);
            proof {
                let next = done.push(all[i as int][j as int]);
                assert(next.drop_last() =~= done);
                assert(all[i as int].take(j + 1) =~= all[i as int].take(j as int).push(all[i as int][j as int]));
                assert(next =~= flatten(all.take(i as int)) + all[i as int].take(j + 1));
                let d = done.len() as int;
                let m = n as int;
                let pp = pos as int;
                vstd::arithmetic::div_mod::lemma_add_mod_noop(d, 1, m);
                if m > 1 {
                    vstd::arithmetic::div_mod::lemma_small_mod(1nat, m as nat);
                }
                if pp + 1 < m {
                    vstd::arithmetic::div_mod::lemma_small_mod((pp + 1) as nat, m as nat);
                } else {
                    vstd::arithmetic::div_mod::lemma_mod_self_0(m);
                }
                assert((d + 1) % m == if pp + 1 == m { 0 } else { pp + 1 });
                done = next;
            }
            pos = if pos + 1 == n { 0 } else { pos + 1 };
            j = j + 1;
        }
        proof {
            assert(all[i as int].take(rows@.len() as int) =~= all[i as int]);
            assert(all.take(i + 1) =~= all.take(i as int).push(all[i as int]));
            lemma_flatten_push(all.take(i as int), all[i as int]);
        }
        i = i + 1;
    }
    assert(all.take(batches@.len() as int) =~= all);
    out
}

proof fn lemma_flatten_take(bs: Seq<Seq<Seq<u64>>>, i: int)
    requires
        0 <= i < bs.len(),
    ensures
        flatten(bs.take(i + 1)) == flatten(bs.take(i)) + bs[i],
{
    assert(bs.take(i + 1) =~= bs.take(i).push(bs[i]));
    lemma_flatten_push(bs.take(i), bs[i]);
}

/// Gathers the rows of `batches` into batches of `target_size` rows; the
/// last may hold fewer, and none is empty. No row is dropped, repeated or
/// moved.
pub fn coalesce(batches: &Vec<RecordBatch>, target_size: usize) -> (r: Vec<RecordBatch>)
    requires
        target_size >= 1,
    ensures
        chunked(batches_view(r@), flatten(batches_view(batches@)), target_size as nat),
{
    let ghost all = batches_view(batches@);
    let mut out: Vec<RecordBatch> = Vec::new();
    let mut chunk: Vec<Vec<u64>> = Vec::new();
    let mut i: usize = 0;
    assert(all.take(0) =~= Seq::<Seq<Seq<u64>>>::empty());
    assert(batches_view(out@) =~= Seq::<Seq<Seq<u64>>>::empty());
    while i < batches.len()
        invariant
            target_size >= 1,
            i <= batches@.len(),
            all == batches_view(batches@),
            flatten(batches_view(out@)) + (RecordBatch { rows: chunk })@ == flatten(all.take(i as int)),
            forall|k: int| 0 <= k < out@.len() ==> (#[trigger] out@[k])@.len() == target_size,
            chunk@.len() < target_size,
        decreases batches.len() - i,
    {
        let rows = &batches[i].rows;
        let mut j: usize = 0;
        while j < rows.len()
            invariant
                target_size >= 1,
                i < batches@.len(),
                rows == batches@[i as int].rows,
                all == batches_view(batches@),
                j <= rows@.len(),
                flatten(batches_view(out@)) + (RecordBatch { rows: chunk })@ == flatten(all.take(i as int))
                    + all[i as int].take(j as int),
                forall|k: int| 0 <= k < out@.len() ==> (#[trigger] out@[k])@.len() == target_size,
                chunk@.len() < target_size,
            decreases rows.len() - j,
        {
            let ghost out_before = batches_view(out@);
            let ghost chunk_before = (RecordBatch { rows: chunk })@;
            chunk.push(copy_row(&rows[j]));
            assert((RecordBatch { rows: chunk })@ =~= chunk_before.push(all[i as int][j as int]));
            assert(all[i as int].take(j + 1) =~= all[i as int].take(j as int).push(all[i as int][j as int]));
            proof {
                let x = all[i as int][j as int];
                let lhs = flatten(out_before) + chunk_before;
                assert(flatten(out_before) + chunk_before.push(x) =~= lhs.push(x));
                assert(lhs.push(x) =~= flatten(all.take(i as int)) + all[i as int].take(j + 1));
            }
            if chunk.len() == target_size {
                let full = RecordBatch { rows: chunk };
                chunk = Vec::new();
                out.push(full);
                proof {
                    assert(batches_view(out@) =~= out_before.push(full@));
                    lemma_flatten_push(out_before, full@);
                    assert((RecordBatch { rows: chunk })@ =~= Seq::<Seq<u64>>::empty());
                }
            }
            assert(flatten(batches_view(out@)) + (RecordBatch { rows: chunk })@ =~= flatten(all.take(i as int))
                + all[i as int].take(j + 1));
            j = j + 1;
        }
        proof {
            assert(all[i as int].take(rows@.len() as int) =~= all[i as int]);
            lemma_flatten_take(all, i as int);
            assert(flatten(batches_view(out@)) + (RecordBatch { rows: chunk })@ =~= flatten(all.take(i + 1)));
        }
        i = i + 1;
    }
    assert(all.take(batches@.len() as int) =~= all);
    if chunk.len() > 0 {
        let ghost out_before = batches_view(out@);
        let last = RecordBatch { rows: chunk };
        out.push(last);
        proof {
            assert(batches_view(out@) =~= out_before.push(last@));
            lemma_flatten_push(out_before, last@);
        }
    } else {
        assert((RecordBatch { rows: chunk })@ =~= Seq::<Seq<u64>>::empty());
        assert(flatten(batches_view(out@)) =~= flatten(batches_view(out@)) + (RecordBatch { rows: chunk })@);
    }
    out
}

/// Every row of `rows` has `width` values.
pub open spec fn rows_width(rows: Seq<Seq<u64>>, width: nat) -> bool {
    forall|i: int| 0 <= i < rows.len() ==> (#[trigger] rows[i]).len() == width
}

pub proof fn lemma_flatten_width(bs: Seq<Seq<Seq<u64>>>, width: nat)
    requires
        conforms(bs, width),
    ensures
        rows_width(flatten(bs), width),
    decreases bs.len(),
{
    if bs.len() > 0 {
        let init = bs.drop_last();
        assert forall|i: int, j: int| 0 <= i < init.len() && 0 <= j < init[i].len() implies (#[trigger] init[i][j]).len()
            == width by {
            assert(init[i] == bs[i]);
        }
        lemma_flatten_width(init, width);
        assert forall|i: int| 0 <= i < flatten(bs).len() implies (#[trigger] flatten(bs)[i]).len() == width by {
            let a = flatten(init);
            if i >= a.len() {
                assert(flatten(bs)[i] == bs.last()[i - a.len()]);
                assert(bs[bs.len() - 1][i - a.len()].len() == width);
            } else {
                assert(flatten(bs)[i] == a[i]);
            }
        }
    }
}

pub proof fn lemma_round_robin_width(rows: Seq<Seq<u64>>, n: nat, p: int, width: nat)
    requires
        rows_width(rows, width),
    ensures
        rows_width(round_robin(rows, n, p), width),
    decreases rows.len(),
{
    if rows.len() > 0 {
        lemma_round_robin_width(rows.drop_last(), n, p, width);
    }
}

/// Coalescing keeps every row, in order: the rows of the output batches,
/// one batch after another, are the rows of the input, and so are as many.
pub proof fn lemma_coalesce_keeps_rows(chunks: Seq<Seq<Seq<u64>>>, rows: Seq<Seq<u64>>, size: nat)
    requires
        chunked(chunks, rows, size),
    ensures
        flatten(chunks).len() == rows.len(),
        forall|i: int| 0 <= i < rows.len() ==> #[trigger] flatten(chunks)[i] == rows[i],
{
}

} // verus!
