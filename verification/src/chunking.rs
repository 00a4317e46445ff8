use vstd::prelude::*;

verus! {

/// The first `cs` bytes of `b`, right-padded with zero bytes where `b` is
/// shorter than `cs`.
pub open spec fn pad_chunk(b: Seq<u8>, cs: nat) -> Seq<u8> {
    Seq::new(cs, |j: int| if j < b.len() { b[j] } else { 0u8 })
}

/// The chunks of `blob` under chunk size `cs`: non-overlapping windows of
/// `cs` bytes, the last one zero-padded; an empty blob yields a single
/// all-zero chunk.
pub open spec fn spec_chunks(blob: Seq<u8>, cs: nat) -> Seq<Seq<u8>>
    decreases blob.len(),
    when cs >= 1
{
    if blob.len() <= cs {
        seq![pad_chunk(blob, cs)]
    } else {
        seq![pad_chunk(blob, cs)] + spec_chunks(blob.skip(cs as int), cs)
    }
}

/// Concatenation of a sequence of byte sequences, in order.
pub open spec fn concat_chunks(s: Seq<Seq<u8>>) -> Seq<u8>
    decreases s.len(),
{
    if s.len() == 0 {
        Seq::empty()
    } else {
        s[0] + concat_chunks(s.drop_first())
    }
}

/// Shape of the chunk sequence: at least one chunk, every chunk exactly
/// `cs` bytes long, and no more chunks than `max(1, blob.len())`.
pub proof fn lemma_spec_chunks_shape(blob: Seq<u8>, cs: nat)
    requires
        cs >= 1,
    ensures
        spec_chunks(blob, cs).len() >= 1,
        blob.len() == 0 ==> spec_chunks(blob, cs).len() == 1,
        blob.len() >= 1 ==> spec_chunks(blob, cs).len() <= blob.len(),
        forall|i: int|
            0 <= i < spec_chunks(blob, cs).len() ==> (#[trigger] spec_chunks(blob, cs)[i]).len()
                == cs,
    decreases blob.len(),
{
    if blob.len() > cs {
        lemma_spec_chunks_shape(blob.skip(cs as int), cs);
    }
}

/// Splitting a blob into chunks and concatenating them back reproduces the
/// blob, up to the zero padding appended after the original length.
pub proof fn lemma_chunks_roundtrip(blob: Seq<u8>, cs: nat)
    requires
        cs >= 1,
    ensures
        concat_chunks(spec_chunks(blob, cs)).len() >= blob.len(),
        concat_chunks(spec_chunks(blob, cs)).take(blob.len() as int) == blob,
    decreases blob.len(),
{
    let chunks = spec_chunks(blob, cs);
    let whole = concat_chunks(chunks);
    if blob.len() <= cs {
        let pc = pad_chunk(blob, cs);
        assert(chunks == seq![pc]);
        assert(chunks.len() == 1);
        assert(chunks[0] == pc);
        assert(chunks.drop_first() =~= Seq::<Seq<u8>>::empty());
        assert(concat_chunks(chunks.drop_first()) == Seq::<u8>::empty());
        assert(whole == pc + Seq::<u8>::empty());
        assert(whole =~= pc);
        assert(whole.take(blob.len() as int) =~= blob);
    } else {
        let tail = blob.skip(cs as int);
        lemma_chunks_roundtrip(tail, cs);
        let rest = spec_chunks(tail, cs);
        assert(chunks == seq![pad_chunk(blob, cs)] + rest);
        assert(chunks.len() == 1 + rest.len());
        assert(chunks.drop_first() =~= rest);
        assert(whole =~= pad_chunk(blob, cs) + concat_chunks(rest));
        assert forall|k: int| 0 <= k < blob.len() implies whole.take(blob.len() as int)[k]
            == blob[k] by {
            if k < cs {
                assert(whole[k] == pad_chunk(blob, cs)[k]);
            } else {
                assert(whole[k] == concat_chunks(rest)[k - cs]);
                assert(concat_chunks(rest).take(tail.len() as int)[k - cs] == tail[k - cs]);
            }
        }
        assert(whole.take(blob.len() as int) =~= blob);
    }
}

/// Split `blob` into `chunk_size`-byte chunks, zero-padding the final one;
/// an empty blob yields a single all-zero chunk.
pub fn chunk_blob(blob: &[u8], chunk_size: usize) -> (out: Vec<Vec<u8>>)
    requires
        chunk_size >= 1,
    ensures
        out.deep_view() == spec_chunks(blob@, chunk_size as nat),
        out@.len() >= 1,
{
    let cs = chunk_size;
    let ghost gcs: nat = cs as nat;
    let mut out: Vec<Vec<u8>> = Vec::new();
    if blob.len() == 0 {
        let mut chunk: Vec<u8> = Vec::new();
        let mut j: usize = 0;
        while j < cs
            invariant
                j <= cs,
                gcs == cs as nat,
                chunk@ =~= pad_chunk(Seq::<u8>::empty(), gcs).take(j as int),
            decreases cs - j,
        {
            chunk.push(0u8);
            assert(chunk@ =~= pad_chunk(Seq::<u8>::empty(), gcs).take(j + 1));
            j += 1;
        }
        assert(chunk@ =~= pad_chunk(blob@, gcs));
        out.push(chunk);
        assert(out.deep_view() =~~= spec_chunks(blob@, gcs));
        return out;
    }
    let mut i: usize = 0;
    proof {
        assert(blob@.skip(0) =~= blob@);
        assert(out.deep_view() =~~= Seq::<Seq<u8>>::empty());
        assert(Seq::<Seq<u8>>::empty() + spec_chunks(blob@, gcs) =~= spec_chunks(blob@, gcs));
    }
    while i < blob.len()
        invariant
            cs >= 1,
            gcs == cs as nat,
            blob@.len() >= 1,
            i <= blob@.len(),
            if i < blob@.len() {
                spec_chunks(blob@, gcs) == out.deep_view() + spec_chunks(
                    blob@.skip(i as int),
                    gcs,
                )
            } else {
                spec_chunks(blob@, gcs) == out.deep_view()
            },
            out@.len() >= 1 <==> i >= 1,
        decreases blob@.len() - i,
    {
        let ghost remaining = blob@.skip(i as int);
        let end: usize = if blob.len() - i < cs {
            blob.len()
        } else {
            i + cs
        };
        let mut chunk: Vec<u8> = Vec::new();
        let mut j: usize = i;
        while j < end
            invariant
                i <= j <= end,
                end <= blob@.len(),
                chunk@ =~= blob@.subrange(i as int, j as int),
            decreases end - j,
        {
            let b = blob[j];
            chunk.push(b);
            assert(chunk@ =~= blob@.subrange(i as int, j + 1));
            j += 1;
        }
        assert(chunk@ =~= pad_chunk(remaining, gcs).take((end - i) as int));
        while chunk.len() < cs
            invariant
                end - i <= chunk@.len() <= cs,
                gcs == cs as nat,
                i <= end <= blob@.len(),
                chunk@ =~= pad_chunk(remaining, gcs).take(chunk@.len() as int),
                end == if blob@.len() - i < cs {
                    blob@.len() as int
                } else {
                    i + cs
                },
                remaining == blob@.skip(i as int),
            decreases cs - chunk@.len(),
        {
            let glen = chunk.len();
            chunk.push(0u8);
            assert(chunk@ =~= pad_chunk(remaining, gcs).take(glen + 1));
        }
        assert(chunk@ =~= pad_chunk(remaining, gcs));
        let ghost old_dv = out.deep_view();
        out.push(chunk);
        assert(out.deep_view() =~~= old_dv + seq![pad_chunk(remaining, gcs)]);
        proof {
            if remaining.len() > gcs {
                assert(spec_chunks(remaining, gcs) == seq![pad_chunk(remaining, gcs)]
                    + spec_chunks(remaining.skip(cs as int), gcs));
                assert(remaining.skip(cs as int) =~= blob@.skip(i + cs));
                assert(out.deep_view() + spec_chunks(blob@.skip(i + cs), gcs) =~~= old_dv
                    + spec_chunks(remaining, gcs));
            } else {
                assert(spec_chunks(remaining, gcs) == seq![pad_chunk(remaining, gcs)]);
                assert(out.deep_view() =~~= old_dv + spec_chunks(remaining, gcs));
            }
        }
        i = if blob.len() - i < cs {
            blob.len()
        } else {
            i + cs
        };
    }
    out
}

} // verus!
