//! The payload codec: a task identifier, a schema and batches of rows in one
//! self-describing byte buffer, behind a compression tag.
use crate::batch::{RecordBatch, Schema, batches_view, conforms};
use crate::task_id::{TaskId, TaskIdView};
use crate::wire::{
    holds_at, le, lemma_holds_at_split, lemma_le_len, lemma_parse_str, lemma_parse_u64, parse_str,
    parse_u64, str_bytes, str_fits, get_str, get_u64, put_str, put_u64,
};
use crate::rle::{rle_compress, rle_decompress, rle_expand};
use vstd::prelude::*;
use vstd::slice::slice_subrange;

verus! {

/// A list on the wire: its elements one after the other (its length travels apart).
pub open spec fn list_bytes<A>(xs: Seq<A>, f: spec_fn(A) -> Seq<u8>) -> Seq<u8>
    decreases xs.len(),
{
    if xs.len() == 0 {
        Seq::empty()
    } else {
        list_bytes(xs.drop_last(), f) + f(xs.last())
    }
}

/// Reads `n` elements with `p`, one after the other, from position `pos`.
pub open spec fn parse_list<A>(
    s: Seq<u8>,
    pos: int,
    n: nat,
    p: spec_fn(Seq<u8>, int) -> Option<(A, int)>,
) -> Option<(Seq<A>, int)>
    decreases n,
{
    if n == 0 {
        Some((Seq::empty(), pos))
    } else {
        match parse_list(s, pos, (n - 1) as nat, p) {
            Some((xs, q)) => match p(s, q) {
                Some((x, q2)) => Some((xs.push(x), q2)),
                None => None,
            },
            None => None,
        }
    }
}

pub open spec fn le_fn() -> spec_fn(u64) -> Seq<u8> {
    |x: u64| le(x)
}

pub open spec fn u64_elem() -> spec_fn(Seq<u8>, int) -> Option<(u64, int)> {
    |s: Seq<u8>, q: int| parse_u64(s, q)
}

pub open spec fn str_fn() -> spec_fn(Seq<char>) -> Seq<u8> {
    |c: Seq<char>| str_bytes(c)
}

pub open spec fn str_elem() -> spec_fn(Seq<u8>, int) -> Option<(Seq<char>, int)> {
    |s: Seq<u8>, q: int| parse_str(s, q)
}

pub open spec fn row_fn() -> spec_fn(Seq<u64>) -> Seq<u8> {
    |r: Seq<u64>| list_bytes(r, le_fn())
}

pub open spec fn row_elem(width: nat) -> spec_fn(Seq<u8>, int) -> Option<(Seq<u64>, int)> {
    |s: Seq<u8>, q: int| parse_list(s, q, width, u64_elem())
}

/// A batch on the wire: its row count, then its rows.
pub open spec fn batch_bytes(b: Seq<Seq<u64>>) -> Seq<u8> {
    le(b.len() as u64) + list_bytes(b, row_fn())
}

pub open spec fn parse_batch(s: Seq<u8>, pos: int, width: nat) -> Option<(Seq<Seq<u64>>, int)> {
    match parse_u64(s, pos) {
        Some((n, q)) => parse_list(s, q, n as nat, row_elem(width)),
        None => None,
    }
}

pub open spec fn batch_fn() -> spec_fn(Seq<Seq<u64>>) -> Seq<u8> {
    |b: Seq<Seq<u64>>| batch_bytes(b)
}

pub open spec fn batch_elem(width: nat) -> spec_fn(Seq<u8>, int) -> Option<(Seq<Seq<u64>>, int)> {
    |s: Seq<u8>, q: int| parse_batch(s, q, width)
}

/// The compression applied to the body of a payload.
#[derive(PartialEq, Eq, Structural, Clone, Copy, Debug)]
pub enum Compression {
    /// The body travels as it is.
    Identity,
    /// The body travels run-length compressed.
    RunLength,
}

/// The tag byte of each compression.
pub open spec fn tag_of(c: Compression) -> u8 {
    match c {
        Compression::Identity => 0,
        Compression::RunLength => 1,
    }
}

/// The compression with tag `t`, if any.
pub open spec fn compression_of(t: u8) -> Option<Compression> {
    if t == 0 {
        Some(Compression::Identity)
    } else if t == 1 {
        Some(Compression::RunLength)
    } else {
        None
    }
}

/// The body that the bytes after the tag stand for, under compression `c`.
pub open spec fn unpack(c: Compression, s: Seq<u8>) -> Option<Seq<u8>> {
    match c {
        Compression::Identity => Some(s),
        Compression::RunLength => if s.len() % 2 == 0 {
            Some(rle_expand(s))
        } else {
            None
        },
    }
}

/// What a payload carries, as mathematical values.
pub struct PayloadView {
    pub task_id: TaskIdView,
    pub fields: Seq<Seq<char>>,
    pub batches: Seq<Seq<Seq<u64>>>,
}

/// A decoded payload.
pub struct Payload {
    pub task_id: TaskId,
    pub schema: Schema,
    pub batches: Vec<RecordBatch>,
}

impl View for Payload {
    type V = PayloadView;

    open spec fn view(&self) -> PayloadView {
        PayloadView {
            task_id: self.task_id@,
            fields: self.schema@,
            batches: batches_view(self.batches@),
        }
    }
}

/// The uncompressed body of a payload.
pub open spec fn body_bytes(v: PayloadView) -> Seq<u8> {
    str_bytes(v.task_id.stage_name) + le(v.task_id.fanout) + le(v.task_id.sequence_index) + le(
        v.task_id.total_fragments,
    ) + le(v.fields.len() as u64) + list_bytes(v.fields, str_fn()) + le(v.batches.len() as u64)
        + list_bytes(v.batches, batch_fn())
}

/// The whole encoded payload without compression: the tag, then the body.
pub open spec fn wire_bytes(v: PayloadView) -> Seq<u8> {
    seq![tag_of(Compression::Identity)] + body_bytes(v)
}

/// `bytes` carry payload `v` under compression `c`: the tag of `c`, then
/// bytes that unpack to the body of `v`.
pub open spec fn carries(bytes: Seq<u8>, v: PayloadView, c: Compression) -> bool {
    &&& bytes.len() >= 1
    &&& bytes[0] == tag_of(c)
    &&& unpack(c, bytes.drop_first()) == Some(body_bytes(v))
}

/// Reads a body that starts at `pos` and runs to the end of `s`.
pub open spec fn parse_body(s: Seq<u8>, pos: int) -> Option<PayloadView> {
    match parse_str(s, pos) {
        None => None,
        Some((name, p1)) => match parse_u64(s, p1) {
            None => None,
            Some((fanout, p2)) => match parse_u64(s, p2) {
                None => None,
                Some((seq_index, p3)) => match parse_u64(s, p3) {
                    None => None,
                    Some((total, p4)) => match parse_u64(s, p4) {
                        None => None,
                        Some((nf, p5)) => match parse_list(s, p5, nf as nat, str_elem()) {
                            None => None,
                            Some((fields, p6)) => match parse_u64(s, p6) {
                                None => None,
                                Some((nb, p7)) => match parse_list(
                                    s,
                                    p7,
                                    nb as nat,
                                    batch_elem(fields.len()),
                                ) {
                                    None => None,
                                    Some((batches, p8)) => if p8 == s.len() {
                                        Some(
                                            PayloadView {
                                                task_id: TaskIdView {
                                                    stage_name: name,
                                                    fanout,
                                                    sequence_index: seq_index,
                                                    total_fragments: total,
                                                },
                                                fields,
                                                batches,
                                            },
                                        )
                                    } else {
                                        None
                                    },
                                },
                            },
                        },
                    },
                },
            },
        },
    }
}

/// Reads a whole encoded payload: the tag, then the body.
pub open spec fn parse_wire(s: Seq<u8>) -> Option<PayloadView> {
    if s.len() == 0 {
        None
    } else {
        match compression_of(s[0]) {
            Some(c) => match unpack(c, s.drop_first()) {
                Some(body) => parse_body(body, 0),
                None => None,
            },
            None => None,
        }
    }
}

/// Why a buffer could not be decoded, or a payload encoded.
#[derive(PartialEq, Eq, Structural, Clone, Copy, Debug)]
pub enum CodecError {
    /// A row does not have one value per column of the schema.
    SchemaMismatch,
    /// The buffer is empty or carries an unknown compression tag.
    UnknownCompression,
    /// The body is truncated, holds invalid text or trailing bytes.
    Corrupt,
}

/// A payload can be written and read back: lengths fit their prefixes and
/// every row has one value per field.
pub open spec fn encodable(v: PayloadView) -> bool {
    &&& str_fits(v.task_id.stage_name)
    &&& v.fields.len() <= u64::MAX
    &&& v.batches.len() <= u64::MAX
    &&& forall|i: int| 0 <= i < v.fields.len() ==> str_fits(#[trigger] v.fields[i])
    &&& forall|i: int| 0 <= i < v.batches.len() ==> (#[trigger] v.batches[i]).len() <= u64::MAX
    &&& conforms(v.batches, v.fields.len())
}

pub proof fn lemma_parse_list_none<A>(
    s: Seq<u8>,
    pos: int,
    n: nat,
    m: nat,
    p: spec_fn(Seq<u8>, int) -> Option<(A, int)>,
)
    requires
        n <= m,
        parse_list(s, pos, n, p) is None,
    ensures
        parse_list(s, pos, m, p) is None,
    decreases m,
{
    if n < m {
        lemma_parse_list_none(s, pos, n, (m - 1) as nat, p);
    }
}

pub proof fn lemma_parse_list<A>(
    s: Seq<u8>,
    pos: int,
    xs: Seq<A>,
    f: spec_fn(A) -> Seq<u8>,
    p: spec_fn(Seq<u8>, int) -> Option<(A, int)>,
)
    requires
        holds_at(s, pos, list_bytes(xs, f)),
        forall|i: int, q: int|
            0 <= i < xs.len() && #[trigger] holds_at(s, q, f(xs[i])) ==> p(s, q) == Some(
                (xs[i], q + f(xs[i]).len()),
            ),
    ensures
        parse_list(s, pos, xs.len(), p) == Some((xs, pos + list_bytes(xs, f).len())),
    decreases xs.len(),
{
    if xs.len() > 0 {
        let init = xs.drop_last();
        lemma_holds_at_split(s, pos, list_bytes(init, f), f(xs.last()));
        assert forall|i: int, q: int|
            0 <= i < init.len() && #[trigger] holds_at(s, q, f(init[i])) implies p(s, q) == Some(
            (init[i], q + f(init[i]).len()),
        ) by {
            assert(init[i] == xs[i]);
            assert(holds_at(s, q, f(xs[i])));
        }
        lemma_parse_list(s, pos, init, f, p);
        assert(holds_at(s, pos + list_bytes(init, f).len(), f(xs[xs.len() - 1])));
        assert(init.push(xs.last()) =~= xs);
    }
}

pub proof fn lemma_parse_row(s: Seq<u8>, pos: int, r: Seq<u64>)
    requires
        holds_at(s, pos, list_bytes(r, le_fn())),
    ensures
        parse_list(s, pos, r.len(), u64_elem()) == Some((r, pos + list_bytes(r, le_fn()).len())),
{
    assert forall|i: int, q: int|
        0 <= i < r.len() && #[trigger] holds_at(s, q, le_fn()(r[i])) implies u64_elem()(s, q) == Some(
        (r[i], q + le_fn()(r[i]).len()),
    ) by {
        lemma_parse_u64(s, q, r[i]);
        lemma_le_len(r[i]);
    }
    lemma_parse_list(s, pos, r, le_fn(), u64_elem());
}

pub proof fn lemma_parse_batch(s: Seq<u8>, pos: int, b: Seq<Seq<u64>>, width: nat)
    requires
        holds_at(s, pos, batch_bytes(b)),
        b.len() <= u64::MAX,
        forall|j: int| 0 <= j < b.len() ==> (#[trigger] b[j]).len() == width,
    ensures
        parse_batch(s, pos, width) == Some((b, pos + batch_bytes(b).len())),
{
    lemma_le_len(b.len() as u64);
    lemma_holds_at_split(s, pos, le(b.len() as u64), list_bytes(b, row_fn()));
    lemma_parse_u64(s, pos, b.len() as u64);
    assert forall|i: int, q: int|
        0 <= i < b.len() && #[trigger] holds_at(s, q, row_fn()(b[i])) implies row_elem(width)(s, q)
        == Some((b[i], q + row_fn()(b[i]).len())) by {
        lemma_parse_row(s, q, b[i]);
    }
    lemma_parse_list(s, pos + 8, b, row_fn(), row_elem(width));
}

pub proof fn lemma_parse_body(s: Seq<u8>, pos: int, v: PayloadView)
    requires
        holds_at(s, pos, body_bytes(v)),
        pos + body_bytes(v).len() == s.len(),
        encodable(v),
    ensures
        parse_body(s, pos) == Some(v),
{
    let t = v.task_id;
    let a = str_bytes(t.stage_name);
    let b = le(t.fanout);
    let c = le(t.sequence_index);
    let d = le(t.total_fragments);
    let e = le(v.fields.len() as u64);
    let f = list_bytes(v.fields, str_fn());
    let g = le(v.batches.len() as u64);
    let h = list_bytes(v.batches, batch_fn());
    lemma_le_len(t.fanout);
    lemma_le_len(t.sequence_index);
    lemma_le_len(t.total_fragments);
    lemma_le_len(v.fields.len() as u64);
    lemma_le_len(v.batches.len() as u64);
    lemma_holds_at_split(s, pos, a + b + c + d + e + f + g, h);
    lemma_holds_at_split(s, pos, a + b + c + d + e + f, g);
    lemma_holds_at_split(s, pos, a + b + c + d + e, f);
    lemma_holds_at_split(s, pos, a + b + c + d, e);
    lemma_holds_at_split(s, pos, a + b + c, d);
    lemma_holds_at_split(s, pos, a + b, c);
    lemma_holds_at_split(s, pos, a, b);
    let p1 = pos + a.len();
    let p5 = p1 + 32;
    let p6 = p5 + f.len();
    let p7 = p6 + 8;
    lemma_parse_str(s, pos, t.stage_name);
    lemma_parse_u64(s, p1, t.fanout);
    lemma_parse_u64(s, p1 + 8, t.sequence_index);
    lemma_parse_u64(s, p1 + 16, t.total_fragments);
    lemma_parse_u64(s, p1 + 24, v.fields.len() as u64);
    assert forall|i: int, q: int|
        0 <= i < v.fields.len() && #[trigger] holds_at(s, q, str_fn()(v.fields[i])) implies str_elem()(
        s,
        q,
    ) == Some((v.fields[i], q + str_fn()(v.fields[i]).len())) by {
        lemma_parse_str(s, q, v.fields[i]);
    }
    lemma_parse_list(s, p5, v.fields, str_fn(), str_elem());
    lemma_parse_u64(s, p6, v.batches.len() as u64);
    assert forall|i: int, q: int|
        0 <= i < v.batches.len() && #[trigger] holds_at(s, q, batch_fn()(v.batches[i])) implies batch_elem(
        v.fields.len(),
    )(s, q) == Some((v.batches[i], q + batch_fn()(v.batches[i]).len())) by {
        assert forall|j: int| 0 <= j < v.batches[i].len() implies (#[trigger] v.batches[i][j]).len()
            == v.fields.len() by {}
        lemma_parse_batch(s, q, v.batches[i], v.fields.len());
    }
    lemma_parse_list(s, p7, v.batches, batch_fn(), batch_elem(v.fields.len()));
}

/// Decoding what was encoded gives back the task identifier, the schema and
/// the batches, under every compression.
pub proof fn lemma_round_trip(bytes: Seq<u8>, v: PayloadView, c: Compression)
    requires
        encodable(v),
        carries(bytes, v, c),
    ensures
        parse_wire(bytes) == Some(v),
{
    let body = body_bytes(v);
    assert(body.subrange(0, body.len() as int) =~= body);
    lemma_parse_body(body, 0, v);
}

fn put_row(out: &mut Vec<u8>, row: &Vec<u64>)
    ensures
        final(out)@ == old(out)@ + list_bytes(row@, le_fn()),
{
    let ghost start = out@;
    let mut i: usize = 0;
    while i < row.len()
        invariant
            i <= row.len(),
            out@ == start + list_bytes(row@.take(i as int), le_fn()),
        decreases row.len() - i,
    {
        put_u64(out, row[i]);
        proof {
            assert(row@.take(i + 1).drop_last() =~= row@.take(i as int));
            assert(out@ =~= start + list_bytes(row@.take(i + 1), le_fn()));
        }
        i = i + 1;
    }
    assert(row@.take(row.len() as int) =~= row@);
}

fn put_batch(out: &mut Vec<u8>, b: &RecordBatch)
    ensures
        final(out)@ == old(out)@ + batch_bytes(b@),
        b@.len() <= u64::MAX,
{
    let ghost start = out@;
    put_u64(out, b.rows.len() as u64);
    let mut i: usize = 0;
    while i < b.rows.len()
        invariant
            i <= b.rows.len(),
            out@ == start + le(b@.len() as u64) + list_bytes(b@.take(i as int), row_fn()),
        decreases b.rows.len() - i,
    {
        put_row(out, &b.rows[i]);
        proof {
            assert(b@.take(i + 1).drop_last() =~= b@.take(i as int));
            assert(out@ =~= start + le(b@.len() as u64) + list_bytes(b@.take(i + 1), row_fn()));
        }
        i = i + 1;
    }
    assert(b@.take(b.rows.len() as int) =~= b@);
    assert(out@ =~= start + batch_bytes(b@));
}

/// Whether every row of every batch has `width` values.
pub fn rows_conform(batches: &Vec<RecordBatch>, width: usize) -> (r: bool)
    ensures
        r == conforms(batches_view(batches@), width as nat),
{
    let mut i: usize = 0;
    while i < batches.len()
        invariant
            i <= batches.len(),
            conforms(batches_view(batches@.take(i as int)), width as nat),
        decreases batches.len() - i,
    {
        let rows = &batches[i].rows;
        let mut j: usize = 0;
        while j < rows.len()
            invariant
                i < batches.len(),
                rows == batches@[i as int].rows,
                j <= rows.len(),
                forall|k: int| 0 <= k < j ==> (#[trigger] rows@[k])@.len() == width,
            decreases rows.len() - j,
        {
            if rows[j].len() != width {
                assert(batches_view(batches@)[i as int][j as int].len() != width);
                return false;
            }
            j = j + 1;
        }
        assert(batches_view(batches@.take(i + 1)) =~= batches_view(batches@.take(i as int)).push(
            batches@[i as int]@,
        ));
        i = i + 1;
    }
    assert(batches@.take(batches.len() as int) =~= batches@);
    true
}

fn encode_body(batches: &Vec<RecordBatch>, schema: &Schema, task_id: &TaskId) -> (out: Vec<u8>)
    requires
        conforms(batches_view(batches@), schema@.len()),
    ensures
        ({
            let v = PayloadView { task_id: task_id@, fields: schema@, batches: batches_view(batches@) };
            out@ == body_bytes(v) && encodable(v)
        }),
{
    let ghost v = PayloadView { task_id: task_id@, fields: schema@, batches: batches_view(batches@) };
    let mut out: Vec<u8> = Vec::new();
    put_str(&mut out, &task_id.stage_name);
    put_u64(&mut out, task_id.fanout);
    put_u64(&mut out, task_id.sequence_index);
    put_u64(&mut out, task_id.total_fragments);
    put_u64(&mut out, schema.fields.len() as u64);
    let ghost head = out@;
    let mut i: usize = 0;
    while i < schema.fields.len()
        invariant
            i <= schema.fields.len(),
            out@ == head + list_bytes(schema@.take(i as int), str_fn()),
            forall|k: int| 0 <= k < i ==> str_fits(#[trigger] schema@[k]),
        decreases schema.fields.len() - i,
    {
        put_str(&mut out, &schema.fields[i]);
        proof {
            assert(schema@.take(i + 1).drop_last() =~= schema@.take(i as int));
            assert(out@ =~= head + list_bytes(schema@.take(i + 1), str_fn()));
        }
        i = i + 1;
    }
    assert(schema@.take(schema.fields.len() as int) =~= schema@);
    put_u64(&mut out, batches.len() as u64);
    let ghost mid = out@;
    let mut i: usize = 0;
    while i < batches.len()
        invariant
            i <= batches.len(),
            out@ == mid + list_bytes(batches_view(batches@).take(i as int), batch_fn()),
            forall|k: int| 0 <= k < i ==> (#[trigger] batches_view(batches@)[k]).len() <= u64::MAX,
        decreases batches.len() - i,
    {
        put_batch(&mut out, &batches[i]);
        proof {
            assert(batches_view(batches@).take(i + 1).drop_last() =~= batches_view(batches@).take(i as int));
            assert(out@ =~= mid + list_bytes(batches_view(batches@).take(i + 1), batch_fn()));
        }
        i = i + 1;
    }
    assert(batches_view(batches@).take(batches.len() as int) =~= batches_view(batches@));
    assert(out@ =~= body_bytes(v));
    out
}

/// Encodes a payload: the compression tag, then the task identifier, the
/// schema and the batches, compressed as asked. Fails exactly when a row
/// does not have one value per field of the schema.
pub fn encode(batches: &Vec<RecordBatch>, schema: &Schema, task_id: &TaskId, compression: Compression) -> (r: Result<Vec<u8>, CodecError>)
    ensures
        match r {
            Ok(bytes) => {
                let v = PayloadView { task_id: task_id@, fields: schema@, batches: batches_view(batches@) };
                &&& carries(bytes@, v, compression)
                &&& compression == Compression::Identity ==> bytes@ == wire_bytes(v)
                &&& encodable(v)
            },
            Err(e) => e == CodecError::SchemaMismatch && !conforms(batches_view(batches@), schema@.len()),
        },
{
    if !rows_conform(batches, schema.fields.len()) {
        return Err(CodecError::SchemaMismatch);
    }
    let body = encode_body(batches, schema, task_id);
    let mut out: Vec<u8> = Vec::new();
    match compression {
        Compression::Identity => {
            out.push(0u8);
            out.extend_from_slice(body.as_slice());
            assert(out@.drop_first() =~= body@);
            assert(out@ =~= seq![0u8] + body@);
        },
        Compression::RunLength => {
            out.push(1u8);
            let packed = rle_compress(&body);
            out.extend_from_slice(packed.as_slice());
            assert(out@.drop_first() =~= packed@);
        },
    }
    Ok(out)
}

fn get_row(buf: &[u8], pos: usize, width: u64) -> (r: Option<(Vec<u64>, usize)>)
    ensures
        match r {
            Some((row, p)) => parse_list(buf@, pos as int, width as nat, u64_elem()) == Some((row@, p as int)),
            None => parse_list(buf@, pos as int, width as nat, u64_elem()) is None,
        },
{
    let mut row: Vec<u64> = Vec::new();
    let mut cur = pos;
    let mut i: u64 = 0;
    while i < width
        invariant
            i <= width,
            parse_list(buf@, pos as int, i as nat, u64_elem()) == Some((row@, cur as int)),
        decreases width - i,
    {
        match get_u64(buf, cur) {
            None => {
                proof {
                    lemma_parse_list_none(buf@, pos as int, (i + 1) as nat, width as nat, u64_elem());
                }
                return None;
            },
            Some((x, next)) => {
                row.push(x);
                cur = next;
            },
        }
        i = i + 1;
    }
    Some((row, cur))
}

#[verifier::loop_isolation(false)]
fn get_batch(buf: &[u8], pos: usize, width: u64) -> (r: Option<(RecordBatch, usize)>)
    ensures
        match r {
            Some((b, p)) => parse_batch(buf@, pos as int, width as nat) == Some((b@, p as int)),
            None => parse_batch(buf@, pos as int, width as nat) is None,
        },
{
    let (n, start) = match get_u64(buf, pos) {
        None => return None,
        Some(x) => x,
    };
    let mut rows: Vec<Vec<u64>> = Vec::new();
    let mut cur = start;
    let mut i: u64 = 0;
    while i < n
        invariant
            i <= n,
            parse_list(buf@, start as int, i as nat, row_elem(width as nat)) == Some(
                ((RecordBatch { rows })@, cur as int),
            ),
        decreases n - i,
    {
        match get_row(buf, cur, width) {
            None => {
                proof {
                    lemma_parse_list_none(buf@, start as int, (i + 1) as nat, n as nat, row_elem(width as nat));
                }
                return None;
            },
            Some((row, next)) => {
                let ghost before = (RecordBatch { rows })@;
                rows.push(row);
                proof {
                    assert((RecordBatch { rows })@ =~= before.push(row@));
                }
                cur = next;
            },
        }
        i = i + 1;
    }
    Some((RecordBatch { rows }, cur))
}

/// Decodes a payload, exactly as `parse_wire` reads it. An empty buffer or an
/// unknown tag gives `UnknownCompression`; any other flaw gives `Corrupt`.
pub fn decode(bytes: &[u8]) -> (r: Result<Payload, CodecError>)
    ensures
        match parse_wire(bytes@) {
            Some(v) => r matches Ok(p) && p@ == v,
            None => r is Err,
        },
        r == Err::<Payload, CodecError>(CodecError::UnknownCompression) <==> (bytes@.len() == 0
            || compression_of(bytes@[0]) is None),
        r matches Err(e) ==> e == CodecError::UnknownCompression || e == CodecError::Corrupt,
{
    if bytes.len() == 0 || bytes[0] > 1u8 {
        return Err(CodecError::UnknownCompression);
    }
    let rest = slice_subrange(bytes, 1, bytes.len());
    assert(rest@ =~= bytes@.drop_first());
    if bytes[0] == 0u8 {
        decode_body(rest)
    } else {
        match rle_decompress(rest) {
            None => Err(CodecError::Corrupt),
            Some(body) => decode_body(body.as_slice()),
        }
    }
}

/// Decodes a body, exactly as `parse_body` reads it from its start.
#[verifier::loop_isolation(false)]
fn decode_body(s: &[u8]) -> (r: Result<Payload, CodecError>)
    ensures
        match parse_body(s@, 0) {
            Some(v) => r matches Ok(p) && p@ == v,
            None => r == Err::<Payload, CodecError>(CodecError::Corrupt),
        },
{
    let (name, p1) = match get_str(s, 0) {
        None => return Err(CodecError::Corrupt),
        Some(x) => x,
    };
    let (fanout, p2) = match get_u64(s, p1) {
        None => return Err(CodecError::Corrupt),
        Some(x) => x,
    };
    let (sequence_index, p3) = match get_u64(s, p2) {
        None => return Err(CodecError::Corrupt),
        Some(x) => x,
    };
    let (total_fragments, p4) = match get_u64(s, p3) {
        None => return Err(CodecError::Corrupt),
        Some(x) => x,
    };
    let (nf, p5) = match get_u64(s, p4) {
        None => return Err(CodecError::Corrupt),
        Some(x) => x,
    };
    let mut fields: Vec<String> = Vec::new();
    let mut cur = p5;
    let mut i: u64 = 0;
    while i < nf
        invariant
            i <= nf,
            parse_list(s@, p5 as int, i as nat, str_elem()) == Some(((Schema { fields })@, cur as int)),
        decreases nf - i,
    {
        match get_str(s, cur) {
            None => {
                proof {
                    lemma_parse_list_none(s@, p5 as int, (i + 1) as nat, nf as nat, str_elem());
                }
                return Err(CodecError::Corrupt);
            },
            Some((f, next)) => {
                let ghost before = (Schema { fields })@;
                fields.push(f);
                proof {
                    assert((Schema { fields })@ =~= before.push(f@));
                }
                cur = next;
            },
        }
        i = i + 1;
    }
    let p6 = cur;
    let (nb, p7) = match get_u64(s, p6) {
        None => return Err(CodecError::Corrupt),
        Some(x) => x,
    };
    let width = fields.len() as u64;
    assert(width as nat == (Schema { fields })@.len());
    let mut batches: Vec<RecordBatch> = Vec::new();
    let mut cur = p7;
    let mut i: u64 = 0;
    while i < nb
        invariant
            i <= nb,
            parse_list(s@, p7 as int, i as nat, batch_elem(width as nat)) == Some(
                (batches_view(batches@), cur as int),
            ),
        decreases nb - i,
    {
        match get_batch(s, cur, width) {
            None => {
                proof {
                    lemma_parse_list_none(s@, p7 as int, (i + 1) as nat, nb as nat, batch_elem(width as nat));
                }
                return Err(CodecError::Corrupt);
            },
            Some((b, next)) => {
                let ghost before = batches_view(batches@);
                batches.push(b);
                proof {
                    assert(batches_view(batches@) =~= before.push(b@));
                }
                cur = next;
            },
        }
        i = i + 1;
    }
    if cur != s.len() {
        return Err(CodecError::Corrupt);
    }
    Ok(
        Payload {
            task_id: TaskId { stage_name: name, fanout, sequence_index, total_fragments },
            schema: Schema { fields },
            batches,
        },
    )
}

} // verus!
