//! Run-length compression of byte strings: pairs of a count and a byte.
use vstd::prelude::*;

verus! {

/// The bytes that the pairs of `s` stand for, pair after pair.
pub open spec fn rle_expand(s: Seq<u8>) -> Seq<u8>
    decreases s.len(),
{
    if s.len() < 2 {
        Seq::empty()
    } else {
        rle_expand(s.subrange(0, s.len() - 2)) + Seq::new(s[s.len() - 2] as nat, |k: int| s[s.len() - 1])
    }
}

proof fn lemma_expand_push(s: Seq<u8>, count: u8, b: u8)
    ensures
        rle_expand(s.push(count).push(b)) == rle_expand(s) + Seq::new(count as nat, |k: int| b),
{
    let t = s.push(count).push(b);
    assert(t.subrange(0, t.len() - 2) =~= s);
    assert(Seq::new(t[t.len() - 2] as nat, |k: int| t[t.len() - 1]) =~= Seq::new(count as nat, |k: int| b));
}

/// Compresses `data` into count-byte pairs, runs of at most 255.
pub fn rle_compress(data: &Vec<u8>) -> (r: Vec<u8>)
    ensures
        r@.len() % 2 == 0,
        rle_expand(r@) == data@,
{
    let mut out: Vec<u8> = Vec::new();
    let mut i: usize = 0;
    while i < data.len()
        invariant
            i <= data@.len(),
            out@.len() % 2 == 0,
            rle_expand(out@) == data@.take(i as int),
        decreases data.len() - i,
    {
        let b = data[i];
        let mut run: usize = 1;
        while run < 255 && run < data.len() - i && data[i + run] == b
            invariant
                i < data@.len(),
                1 <= run <= 255,
                i + run <= data@.len(),
                forall|k: int| i <= k < i + run ==> data@[k] == b,
            decreases 255 - run,
        {
            run = run + 1;
        }
        let ghost before = out@;
        out.push(run as u8);
        out.push(b);
        proof {
            lemma_expand_push(before, run as u8, b);
            assert(data@.take(i + run) =~= data@.take(i as int) + Seq::new(run as nat, |k: int| b));
        }
        i = i + run;
    }
    assert(data@.take(data@.len() as int) =~= data@);
    out
}

/// Expands count-byte pairs; `None` when a pair is cut short.
pub fn rle_decompress(data: &[u8]) -> (r: Option<Vec<u8>>)
    ensures
        match r {
            Some(v) => data@.len() % 2 == 0 && v@ == rle_expand(data@),
            None => data@.len() % 2 != 0,
        },
{
    if data.len() % 2 != 0 {
        return None;
    }
    let mut out: Vec<u8> = Vec::new();
    let mut i: usize = 0;
    assert(data@.take(0) =~= Seq::<u8>::empty());
    while i < data.len()
        invariant
            data@.len() % 2 == 0,
            i % 2 == 0,
            i <= data@.len(),
            out@ == rle_expand(data@.take(i as int)),
        decreases data.len() - i,
    {
        let count = data[i];
        let b = data[i + 1];
        let ghost start = out@;
        let mut k: u8 = 0;
        while k < count
            invariant
                k <= count,
                out@ == start + Seq::new(k as nat, |t: int| b),
            decreases count - k,
        {
            out.push(b);
            assert(out@ =~= start + Seq::new((k + 1) as nat, |t: int| b));
            k = k + 1;
        }
        proof {
            let t = data@.take(i + 2);
            assert(t.subrange(0, t.len() - 2) =~= data@.take(i as int));
            assert(Seq::new(t[t.len() - 2] as nat, |j: int| t[t.len() - 1]) =~= Seq::new(count as nat, |j: int| b));
        }
        i = i + 2;
    }
    assert(data@.take(data@.len() as int) =~= data@);
    Some(out)
}

} // verus!
