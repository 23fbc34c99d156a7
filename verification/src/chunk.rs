//! Split byte blobs into size-bounded ordered pieces (for attachment size
//! limits) and rejoin them losslessly.
use vstd::prelude::*;

use crate::error::CoreError;
use crate::error::copy_str;

verus! {

/// The pieces `split` cuts `d` into: consecutive runs of `m` bytes, the last
/// one shorter; an input of at most `m` bytes (the empty one included) is a
/// single piece.
pub open spec fn split_spec(d: Seq<u8>, m: nat) -> Seq<Seq<u8>>
    decreases d.len(),
{
    if m == 0 || d.len() <= m {
        seq![d]
    } else {
        seq![d.take(m as int)] + split_spec(d.skip(m as int), m)
    }
}

/// The byte views of a vector of byte vectors.
pub open spec fn views(s: Seq<Vec<u8>>) -> Seq<Seq<u8>> {
    s.map_values(|v: Vec<u8>| v@)
}

/// The bytes `[a, b)` of `data`, copied.
pub fn copy_range(data: &[u8], a: usize, b: usize) -> (r: Vec<u8>)
    requires
        a <= b <= data@.len(),
    ensures
        r@ == data@.subrange(a as int, b as int),
{
    let mut r: Vec<u8> = Vec::with_capacity(b - a);
    let mut i = a;
    while i < b
        invariant
            a <= i <= b <= data@.len(),
            r@ == data@.subrange(a as int, i as int),
        decreases b - i,
    {
        r.push(data[i]);
        i = i + 1;
        assert(r@ =~= data@.subrange(a as int, i as int));
    }
    r
}

/// Split `data` into ordered chunks of at most `max_size` bytes. Empty input
/// yields a single empty chunk (so there is always at least one piece).
pub fn split(data: &[u8], max_size: usize) -> (r: Result<Vec<Vec<u8>>, CoreError>)
    ensures
        max_size == 0 ==> (r matches Err(CoreError::Chunk(msg))
            && msg@ == "max_size must be greater than 0"@),
        max_size > 0 ==> (r matches Ok(chunks) && views(chunks@) == split_spec(data@, max_size as nat)),
{
    if max_size == 0 {
        return Err(CoreError::Chunk(copy_str("max_size must be greater than 0")));
    }
    let ghost d = data@;
    let ghost m = max_size as nat;
    let mut out: Vec<Vec<u8>> = Vec::new();
    let mut pos: usize = 0;
    assert(d.skip(0) =~= d);
    assert(views(out@) + split_spec(d.skip(0), m) =~= split_spec(d, m));
    while data.len() - pos > max_size
        invariant
            d == data@,
            m == max_size as nat,
            max_size > 0,
            pos <= data@.len(),
            views(out@) + split_spec(d.skip(pos as int), m) == split_spec(d, m),
        decreases data@.len() - pos,
    {
        let ghost rest = d.skip(pos as int);
        let piece = copy_range(data, pos, pos + max_size);
        proof {
            assert(piece@ =~= rest.take(m as int));
            assert(rest.skip(m as int) =~= d.skip(pos + max_size));
            assert(split_spec(rest, m) == seq![rest.take(m as int)] + split_spec(rest.skip(m as int), m));
        }
        let ghost before = out@;
        out.push(piece);
        pos = pos + max_size;
        proof {
            assert(views(out@) =~= views(before).push(piece@));
            assert(views(out@) + split_spec(d.skip(pos as int), m) =~= views(before) + (seq![piece@] + split_spec(d.skip(pos as int), m)));
        }
    }
    let last = copy_range(data, pos, data.len());
    let ghost before = out@;
    out.push(last);
    proof {
        assert(last@ =~= d.skip(pos as int));
        assert(views(out@) =~= views(before).push(last@));
        assert(views(out@) =~= views(before) + split_spec(d.skip(pos as int), m));
    }
    Ok(out)
}

/// The bytes of all chunks, in order.
pub open spec fn join_spec(chunks: Seq<Vec<u8>>) -> Seq<u8> {
    views(chunks).flatten()
}

/// Reassemble ordered chunks (as produced by [`split`]) into one byte vector.
pub fn join(chunks: &[Vec<u8>]) -> (r: Vec<u8>)
    ensures
        r@ == join_spec(chunks@),
{
    let mut out: Vec<u8> = Vec::new();
    let mut i: usize = 0;
    while i < chunks.len()
        invariant
            i <= chunks@.len(),
            out@ == views(chunks@.take(i as int)).flatten(),
        decreases chunks@.len() - i,
    {
        let c = &chunks[i];
        let mut j: usize = 0;
        let ghost start = out@;
        while j < c.len()
            invariant
                j <= c@.len(),
                out@ == start + c@.take(j as int),
            decreases c@.len() - j,
        {
            out.push(c[j]);
            j = j + 1;
            assert(out@ =~= start + c@.take(j as int));
        }
        proof {
            assert(c@.take(c@.len() as int) =~= c@);
            assert(views(chunks@.take(i + 1)) =~= views(chunks@.take(i as int)).push(c@));
            views(chunks@.take(i as int)).lemma_flatten_push(c@);
        }
        i = i + 1;
    }
    assert(chunks@.take(chunks@.len() as int) =~= chunks@);
    out
}

/// Rejoining the pieces of a split gives back the input bytes.
pub proof fn lemma_join_split(d: Seq<u8>, m: nat)
    ensures
        split_spec(d, m).flatten() == d,
    decreases d.len(),
{
    if m == 0 || d.len() <= m {
        seq![d].lemma_flatten_one_element();
    } else {
        lemma_join_split(d.skip(m as int), m);
        vstd::seq_lib::lemma_flatten_concat(seq![d.take(m as int)], split_spec(d.skip(m as int), m));
        seq![d.take(m as int)].lemma_flatten_one_element();
        assert(d.take(m as int) + d.skip(m as int) =~= d);
    }
}

/// A split has at least one piece (the empty input gives one empty piece);
/// every piece holds at most `m` bytes, every piece but the last exactly `m`;
/// a non-empty input has no empty piece.
pub proof fn law_split_piece_sizes(d: Seq<u8>, m: nat)
    requires
        m > 0,
    ensures
        split_spec(d, m).len() >= 1,
        forall|i: int| 0 <= i < split_spec(d, m).len() ==> #[trigger] split_spec(d, m)[i].len() <= m,
        forall|i: int| 0 <= i < split_spec(d, m).len() - 1 ==> #[trigger] split_spec(d, m)[i].len() == m,
        d.len() > 0 ==> forall|i: int| 0 <= i < split_spec(d, m).len() ==> #[trigger] split_spec(d, m)[i].len() > 0,
    decreases d.len(),
{
    if d.len() > m {
        law_split_piece_sizes(d.skip(m as int), m);
        let s = split_spec(d, m);
        let t = split_spec(d.skip(m as int), m);
        assert forall|i: int| 1 <= i < s.len() implies #[trigger] s[i] == t[i - 1] by {}
    }
}

/// The round trip that chunked uploads rely on: splitting and rejoining any
/// blob with a positive chunk size gives back the blob.
pub proof fn law_join_after_split(data: Seq<u8>, max_size: nat)
    requires
        max_size > 0,
    ensures
        split_spec(data, max_size).flatten() == data,
{
    lemma_join_split(data, max_size);
}

} // verus!
