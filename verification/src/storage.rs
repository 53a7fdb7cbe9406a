//! The catalog store: durable chunked persistence of metadata records, a
//! small summary of the latest scan, and duplicate detection over a loaded
//! catalog.
use crate::catalog::{
    distinct_paths, lemma_map_of_distinct, lemma_map_of_domain, map_of, views_of, Catalog,
    FileMetadata, MetaView,
};
use crate::codec::{
    all_storable, lemma_parse_ser_chunk, parse_chunk_exec, parse_chunk_full, ser_chunk,
    serialize_chunk, storable,
};
use crate::json::{ser_i64, ser_jstring, ser_udec};
use crate::scanner::ScanResult;
use vstd::prelude::*;

verus! {

/// A chunk file whose text is not a well-formed stored chunk.
#[derive(Clone, Copy, Debug, PartialEq, Eq, Structural)]
pub struct ParseError {
    pub chunk_index: usize,
}

// ------------------------------------------------------------- statistics
/// The stored members of the extension-count object.
pub open spec fn ser_ft_members(pairs: Seq<(Seq<char>, usize)>) -> Seq<char>
    decreases pairs.len(),
{
    if pairs.len() == 0 {
        Seq::empty()
    } else if pairs.len() == 1 {
        ser_jstring(pairs[0].0) + (seq![':'] + ser_udec(pairs[0].1 as int))
    } else {
        (ser_jstring(pairs[0].0) + (seq![':'] + ser_udec(pairs[0].1 as int))) + (seq![',']
            + ser_ft_members(pairs.drop_first()))
    }
}

/// The stored extension-count object.
pub open spec fn ser_ft(pairs: Seq<(Seq<char>, usize)>) -> Seq<char> {
    if pairs.len() == 0 {
        seq!['{', '}']
    } else {
        seq!['{'] + (ser_ft_members(pairs) + seq!['}'])
    }
}

/// The stored summary of the latest scan.
pub open spec fn ser_stats(
    timestamp: i64,
    total_files: usize,
    total_size: u64,
    pairs: Seq<(Seq<char>, usize)>,
) -> Seq<char> {
    "{\"timestamp\":"@ + ser_i64(timestamp) + ",\"total_files\":"@ + ser_udec(total_files as int)
        + ",\"total_size\":"@ + ser_udec(total_size as int) + ",\"file_types\":"@ + ser_ft(pairs)
        + seq!['}']
}

proof fn lemma_ft_members_snoc(pairs: Seq<(Seq<char>, usize)>, p: (Seq<char>, usize))
    requires
        pairs.len() >= 1,
    ensures
        ser_ft_members(pairs.push(p)) == ser_ft_members(pairs) + (seq![','] + (ser_jstring(p.0) + (
        seq![':'] + ser_udec(p.1 as int)))),
    decreases pairs.len(),
{
    let w = pairs.push(p);
    assert(w[0] == pairs[0]);
    if pairs.len() == 1 {
        assert(w.drop_first() =~= seq![p]);
        assert(ser_ft_members(seq![p]) == ser_jstring(p.0) + (seq![':'] + ser_udec(p.1 as int)));
    } else {
        assert(w.drop_first() =~= pairs.drop_first().push(p));
        lemma_ft_members_snoc(pairs.drop_first(), p);
        assert((ser_jstring(pairs[0].0) + (seq![':'] + ser_udec(pairs[0].1 as int))) + (seq![',']
            + (ser_ft_members(pairs.drop_first()) + (seq![','] + (ser_jstring(p.0) + (seq![':']
            + ser_udec(p.1 as int)))))) =~= ((ser_jstring(pairs[0].0) + (seq![':'] + ser_udec(
            pairs[0].1 as int,
        ))) + (seq![','] + ser_ft_members(pairs.drop_first()))) + (seq![','] + (ser_jstring(p.0) + (
        seq![':'] + ser_udec(p.1 as int)))));
    }
}

/// Serializes the summary of the latest scan: its instant, the file and
/// byte totals, and the extension counts.
pub fn save_stats(timestamp: i64, result: &ScanResult) -> (r: String)
    ensures
        r@ == ser_stats(timestamp, result.total_files, result.total_size, result.file_types@),
{
    let mut buf: Vec<char> = Vec::new();
    crate::json::emit_str(&mut buf, "{\"timestamp\":");
    crate::json::emit_i64(&mut buf, timestamp);
    crate::json::emit_str(&mut buf, ",\"total_files\":");
    crate::json::emit_u64(&mut buf, result.total_files as u64);
    crate::json::emit_str(&mut buf, ",\"total_size\":");
    crate::json::emit_u64(&mut buf, result.total_size);
    crate::json::emit_str(&mut buf, ",\"file_types\":");
    let ghost pre = buf@;
    let n: usize = result.file_types.pairs.len();
    buf.push('{');
    let mut i: usize = 0;
    while i < n
        invariant
            n == result.file_types.pairs@.len(),
            i <= n,
            i == 0 ==> buf@ == pre + seq!['{'],
            i >= 1 ==> buf@ == pre + (seq!['{'] + ser_ft_members(
                result.file_types@.subrange(0, i as int),
            )),
        decreases n - i,
    {
        if i > 0 {
            buf.push(',');
        }
        let ghost buf0 = buf@;
        let p = &result.file_types.pairs[i];
        crate::json::emit_jstring(&mut buf, p.extension.as_str());
        buf.push(':');
        crate::json::emit_u64(&mut buf, p.count as u64);
        proof {
            let vs = result.file_types@;
            assert(vs[i as int] == result.file_types.pairs@[i as int]@);
            let cur = vs.subrange(0, (i + 1) as int);
            let prev = vs.subrange(0, i as int);
            assert(buf@ =~= buf0 + (ser_jstring(vs[i as int].0) + (seq![':'] + ser_udec(
                vs[i as int].1 as int,
            ))));
            if i == 0 {
                assert(cur =~= seq![vs[0]]);
                assert(buf@ =~= pre + (seq!['{'] + ser_ft_members(cur)));
            } else {
                lemma_ft_members_snoc(prev, vs[i as int]);
                assert(prev.push(vs[i as int]) =~= cur);
                assert(buf@ =~= pre + (seq!['{'] + ser_ft_members(cur)));
            }
        }
        i = i + 1;
    }
    buf.push('}');
    buf.push('}');
    proof {
        let vs = result.file_types@;
        assert(vs.subrange(0, n as int) =~= vs);
        assert(buf@ =~= ser_stats(
            timestamp,
            result.total_files,
            result.total_size,
            result.file_types@,
        ));
    }
    crate::text::chars_to_string(&buf)
}

// ------------------------------------------------------------------- saving
/// The records an existing chunk file contributes: none when the file is
/// absent or not a well-formed stored chunk, as such a file is started over.
pub open spec fn chunk_base(existing: Option<Seq<char>>) -> Seq<MetaView> {
    match existing {
        None => Seq::empty(),
        Some(s) => match parse_chunk_full(s) {
            Some(es) => es,
            None => Seq::empty(),
        },
    }
}

/// The records of the walk that land in chunk `k` at the given capacity.
pub open spec fn chunk_slice(records: Seq<MetaView>, k: int, cap: int) -> Seq<MetaView> {
    let lo = k * cap;
    let hi = if (k + 1) * cap <= records.len() {
        (k + 1) * cap
    } else {
        records.len() as int
    };
    if 0 <= lo <= hi <= records.len() {
        records.subrange(lo, hi)
    } else {
        Seq::empty()
    }
}

/// What one store pass writes: the summary, and each chunk's new text.
pub struct SaveOutput {
    pub stats: String,
    pub chunks: Vec<String>,
}

/// The new text of chunk `k` holds exactly the old chunk's records
/// superseded by the walk's records for that chunk, path by path.
pub open spec fn chunk_written(
    content: Seq<char>,
    existing: Option<Seq<char>>,
    records: Seq<MetaView>,
    k: int,
    cap: int,
) -> bool {
    match parse_chunk_full(content) {
        Some(es) => {
            &&& distinct_paths(es)
            &&& map_of(es) == map_of(chunk_base(existing) + chunk_slice(records, k, cap))
        },
        None => false,
    }
}

/// The records an existing chunk file contributes, as values: a missing or
/// malformed chunk file contributes none.
fn base_records_of(existing: Option<&String>) -> (r: Vec<FileMetadata>)
    ensures
        views_of(r@) == chunk_base(
            match existing {
                Some(s) => Some(s@),
                None => None,
            },
        ),
        all_storable(views_of(r@)),
{
    match existing {
        Some(s) => {
            let cs = crate::text::string_to_chars(s.as_str());
            match parse_chunk_exec(&cs) {
                Some(es) => es,
                None => {
                    let v: Vec<FileMetadata> = Vec::new();
                    proof {
                        assert(views_of(v@) =~= Seq::<MetaView>::empty());
                    }
                    v
                },
            }
        },
        None => {
            let v: Vec<FileMetadata> = Vec::new();
            proof {
                assert(views_of(v@) =~= Seq::<MetaView>::empty());
            }
            v
        },
    }
}

/// Builds one chunk's new text: the existing records are loaded (a missing
/// or malformed chunk file counts as empty), the walk's records for the
/// chunk are merged in path by path, and the merge is serialized.
#[verifier::rlimit(100)]
fn rewrite_chunk(
    existing: Option<&String>,
    records: &Vec<FileMetadata>,
    lo: usize,
    hi: usize,
) -> (r: String)
    requires
        lo <= hi <= records@.len(),
        all_storable(views_of(records@)),
    ensures
        ({
            let ex = match existing {
                Some(s) => Some(s@),
                None => None,
            };
            match parse_chunk_full(r@) {
                Some(es) => distinct_paths(es) && map_of(es) == map_of(
                    chunk_base(ex) + views_of(records@).subrange(lo as int, hi as int),
                ),
                None => false,
            }
        }),
{
    let ghost slice = views_of(records@).subrange(lo as int, hi as int);
    let mut cat = Catalog::new();
    let base_records: Vec<FileMetadata> = base_records_of(existing);
    let ghost basevs = views_of(base_records@);
    let bn: usize = base_records.len();
    let mut i: usize = 0;
    while i < bn
        invariant
            bn == base_records@.len(),
            basevs == views_of(base_records@),
            all_storable(basevs),
            i <= bn,
            cat.wf(),
            cat.as_map() == map_of(basevs.subrange(0, i as int)),
            forall|x: Seq<char>|
                #[trigger] cat.as_map().contains_key(x) ==> storable(cat.as_map()[x]),
        decreases bn - i,
    {
        let m = base_records[i].duplicate();
        proof {
            assert(basevs[i as int] == base_records@[i as int]@);
            assert(basevs.subrange(0, (i + 1) as int).drop_last() =~= basevs.subrange(
                0,
                i as int,
            ));
        }
        cat.insert(m);
        i = i + 1;
    }
    proof {
        assert(basevs.subrange(0, bn as int) =~= basevs);
    }
    let mut j: usize = lo;
    while j < hi
        invariant
            lo <= j <= hi <= records@.len(),
            basevs == views_of(base_records@),
            all_storable(views_of(records@)),
            j <= records@.len(),
            cat.wf(),
            cat.as_map() == map_of(basevs + views_of(records@).subrange(lo as int, j as int)),
            forall|x: Seq<char>|
                #[trigger] cat.as_map().contains_key(x) ==> storable(cat.as_map()[x]),
        decreases hi - j,
    {
        let m = records[j].duplicate();
        proof {
            let vs = views_of(records@);
            assert(vs[j as int] == records@[j as int]@);
            assert(storable(vs[j as int]));
            assert((basevs + vs.subrange(lo as int, (j + 1) as int)).drop_last() =~= basevs
                + vs.subrange(lo as int, j as int));
            assert((basevs + vs.subrange(lo as int, (j + 1) as int)).last() == vs[j as int]);
        }
        cat.insert(m);
        j = j + 1;
    }
    proof {
        lemma_map_of_distinct(cat@);
        lemma_map_of_domain(cat@);
        assert forall|t: int| 0 <= t < cat@.len() implies storable(#[trigger] cat@[t]) by {
            assert(cat.as_map()[cat@[t].path] == cat@[t]);
        }
        assert(all_storable(cat@));
    }
    let content = serialize_chunk(&cat.entries);
    proof {
        lemma_parse_ser_chunk(cat@);
        let ex = match existing {
            Some(s) => Some(s@),
            None => None,
        };
        assert(chunk_base(ex) == basevs);
    }
    content
}

/// Persists one walk's result: the summary text, and the new text of every
/// chunk the walk touches.  `existing` holds the current text of each of
/// those chunk files, in chunk order; records land in chunks of
/// `chunk_capacity` in catalog order, merging with what a chunk already
/// holds, path by path.
pub fn save_scan_result(
    result: &ScanResult,
    existing: &Vec<Option<String>>,
    timestamp: i64,
    chunk_capacity: usize,
) -> (r: SaveOutput)
    requires
        chunk_capacity >= 1,
        all_storable(result.metadata@),
        existing@.len() * chunk_capacity >= result.metadata@.len(),
    ensures
        r.stats@ == ser_stats(timestamp, result.total_files, result.total_size,
            result.file_types@),
        r.chunks@.len() == existing@.len(),
        forall|k: int|
            0 <= k < existing@.len() ==> chunk_written(
                #[trigger] r.chunks@[k]@,
                match existing@[k] {
                    Some(s) => Some(s@),
                    None => None,
                },
                result.metadata@,
                k,
                chunk_capacity as int,
            ),
{
    let stats = save_stats(timestamp, result);
    let nrec: usize = result.metadata.entries.len();
    let nchunks: usize = existing.len();
    let mut chunks: Vec<String> = Vec::new();
    let mut k: usize = 0;
    proof {
        assert(views_of(result.metadata.entries@) == result.metadata@);
    }
    while k < nchunks
        invariant
            nrec == result.metadata.entries@.len(),
            nrec == result.metadata@.len(),
            views_of(result.metadata.entries@) == result.metadata@,
            all_storable(result.metadata@),
            nchunks == existing@.len(),
            chunk_capacity >= 1,
            k <= nchunks,
            chunks@.len() == k,
            forall|t: int|
                0 <= t < k ==> chunk_written(
                    #[trigger] chunks@[t]@,
                    match existing@[t] {
                        Some(s) => Some(s@),
                        None => None,
                    },
                    result.metadata@,
                    t,
                    chunk_capacity as int,
                ),
        decreases nchunks - k,
    {
        let ku: u128 = k as u128;
        let cu: u128 = chunk_capacity as u128;
        proof {
            assert(ku * cu < 0x100000000000000000000000000000000) by (nonlinear_arith)
                requires
                    0 <= ku < 0x10000000000000000,
                    0 <= cu < 0x10000000000000000,
            ;
        }
        let prod: u128 = ku * cu;
        proof {
            assert(prod as int == (k as int) * (chunk_capacity as int));
        }
        let lo: usize = if prod <= (nrec as u128) {
            (prod as usize)
        } else {
            nrec
        };
        let hi: usize = if prod <= (nrec as u128) {
            if chunk_capacity <= nrec - lo {
                lo + chunk_capacity
            } else {
                nrec
            }
        } else {
            nrec
        };
        proof {
            assert(k * chunk_capacity >= 0) by (nonlinear_arith)
                requires
                    k >= 0,
                    chunk_capacity >= 1,
            ;
            assert((k + 1) * chunk_capacity == k * chunk_capacity + chunk_capacity)
                by (nonlinear_arith);
            if k * chunk_capacity > nrec {
                assert(chunk_slice(result.metadata@, k as int, chunk_capacity as int)
                    =~= result.metadata@.subrange(nrec as int, nrec as int));
                assert(result.metadata@.subrange(nrec as int, nrec as int) =~= Seq::<
                    MetaView,
                >::empty());
            }
            assert(chunk_slice(result.metadata@, k as int, chunk_capacity as int)
                == result.metadata@.subrange(lo as int, hi as int));
        }
        let content = rewrite_chunk(
            match existing[k] {
                Some(ref s) => Some(s),
                None => None,
            },
            &result.metadata.entries,
            lo,
            hi,
        );
        chunks.push(content);
        k = k + 1;
    }
    SaveOutput { stats, chunks }
}

// ------------------------------------------------------------------ loading
/// The records of all chunk texts in order, or nothing when any chunk is
/// malformed.
pub open spec fn parsed_records(chunks: Seq<Seq<char>>) -> Option<Seq<MetaView>>
    decreases chunks.len(),
{
    if chunks.len() == 0 {
        Some(Seq::empty())
    } else {
        match (parsed_records(chunks.drop_last()), parse_chunk_full(chunks.last())) {
            (Some(a), Some(b)) => Some(a + b),
            _ => None,
        }
    }
}

proof fn lemma_parsed_records_snoc(chunks: Seq<Seq<char>>, i: int)
    requires
        0 <= i < chunks.len(),
        parse_chunk_full(chunks[i]) is None,
    ensures
        parsed_records(chunks) is None,
    decreases chunks.len(),
{
    if chunks.len() > 0 {
        if i == chunks.len() - 1 {
        } else {
            assert(chunks.drop_last()[i] == chunks[i]);
            lemma_parsed_records_snoc(chunks.drop_last(), i);
        }
    }
}

/// Rebuilds the catalog from every stored chunk: the chunks' records merged
/// by path, a later-parsed record superseding an earlier one.  One
/// malformed chunk fails the whole load, naming the chunk.
pub fn load_file_metadata(chunks: &Vec<String>) -> (r: Result<Catalog, ParseError>)
    ensures
        match r {
            Ok(c) => {
                &&& parsed_records(chunks.deep_view()) is Some
                &&& c.wf()
                &&& c.as_map() == map_of(parsed_records(chunks.deep_view()).unwrap())
                &&& forall|x: Seq<char>|
                    #[trigger] c.as_map().contains_key(x) ==> storable(c.as_map()[x])
            },
            Err(e) => parsed_records(chunks.deep_view()) is None && e.chunk_index
                < chunks.deep_view().len() && parse_chunk_full(
                chunks.deep_view()[e.chunk_index as int],
            ) is None,
        },
{
    let n: usize = chunks.len();
    let mut cat = Catalog::new();
    let ghost acc: Seq<MetaView> = Seq::empty();
    let ghost dv = chunks.deep_view();
    proof {
        assert(dv.len() == chunks@.len());
    }
    let mut k: usize = 0;
    let mut racc: Ghost<Seq<MetaView>> = Ghost(Seq::empty());
    while k < n
        invariant
            n == chunks@.len(),
            dv == chunks.deep_view(),
            dv.len() == n,
            k <= n,
            parsed_records(dv.subrange(0, k as int)) == Some(racc@),
            cat.wf(),
            cat.as_map() == map_of(racc@),
            forall|x: Seq<char>|
                #[trigger] cat.as_map().contains_key(x) ==> storable(cat.as_map()[x]),
        decreases n - k,
    {
        let cs = crate::text::string_to_chars(chunks[k].as_str());
        proof {
            assert(dv[k as int] == chunks@[k as int]@);
        }
        match parse_chunk_exec(&cs) {
            Some(records) => {
                let ghost rvs = views_of(records@);
                let rn: usize = records.len();
                let mut j: usize = 0;
                while j < rn
                    invariant
                        rn == records@.len(),
                        rvs == views_of(records@),
                        all_storable(rvs),
                        j <= rn,
                        cat.wf(),
                        cat.as_map() == map_of(racc@ + rvs.subrange(0, j as int)),
                        forall|x: Seq<char>|
                            #[trigger] cat.as_map().contains_key(x) ==> storable(cat.as_map()[x]),
                    decreases rn - j,
                {
                    let m = records[j].duplicate();
                    proof {
                        assert(rvs[j as int] == records@[j as int]@);
                        assert(storable(rvs[j as int]));
                        assert((racc@ + rvs.subrange(0, (j + 1) as int)).drop_last() =~= racc@
                            + rvs.subrange(0, j as int));
                        assert((racc@ + rvs.subrange(0, (j + 1) as int)).last() == rvs[j as int]);
                    }
                    cat.insert(m);
                    j = j + 1;
                }
                proof {
                    assert(rvs.subrange(0, rn as int) =~= rvs);
                    assert(dv.subrange(0, (k + 1) as int).drop_last() =~= dv.subrange(0, k as int));
                    assert(dv.subrange(0, (k + 1) as int).last() == dv[k as int]);
                    assert(parsed_records(dv.subrange(0, (k + 1) as int)) == Some(racc@ + rvs));
                }
                racc = Ghost(racc@ + views_of(records@));
            },
            None => {
                proof {
                    lemma_parsed_records_snoc(dv, k as int);
                }
                return Err(ParseError { chunk_index: k });
            },
        }
        k = k + 1;
    }
    proof {
        assert(dv.subrange(0, n as int) =~= dv);
    }
    Ok(cat)
}

/// Splitting a catalog's records into chunks, storing each chunk, and
/// parsing all of them back yields exactly the records, in order: the
/// stored form loses nothing, however the records fall across chunk
/// boundaries.
pub proof fn lemma_catalog_round_trip(chunks: Seq<Seq<MetaView>>)
    requires
        forall|k: int| 0 <= k < chunks.len() ==> all_storable(#[trigger] chunks[k]),
    ensures
        parsed_records(chunks.map_values(|es: Seq<MetaView>| ser_chunk(es))) == Some(
            chunks.flatten_alt(),
        ),
    decreases chunks.len(),
{
    let texts = chunks.map_values(|es: Seq<MetaView>| ser_chunk(es));
    if chunks.len() == 0 {
        assert(chunks.flatten_alt() =~= Seq::<MetaView>::empty());
    } else {
        assert(texts.drop_last() =~= chunks.drop_last().map_values(
            |es: Seq<MetaView>| ser_chunk(es),
        ));
        lemma_catalog_round_trip(chunks.drop_last());
        lemma_parse_ser_chunk(chunks.last());
        assert(texts.last() == ser_chunk(chunks.last()));
        assert(chunks.flatten_alt() == chunks.drop_last().flatten_alt() + chunks.last());
    }
}

/// Appending record sequences merges their mappings, the later sequence
/// winning on a shared path.
proof fn lemma_map_of_append(a: Seq<MetaView>, b: Seq<MetaView>)
    ensures
        map_of(a + b) == map_of(a).union_prefer_right(map_of(b)),
    decreases b.len(),
{
    if b.len() == 0 {
        assert(a + b =~= a);
        assert(map_of(a).union_prefer_right(map_of(b)) =~= map_of(a));
    } else {
        assert((a + b).drop_last() =~= a + b.drop_last());
        assert((a + b).last() == b.last());
        lemma_map_of_append(a, b.drop_last());
        assert(map_of(a).union_prefer_right(map_of(b.drop_last())).insert(
            b.last().path,
            b.last(),
        ) =~= map_of(a).union_prefer_right(map_of(b.drop_last()).insert(b.last().path, b.last())));
    }
}

/// Sequences of chunks whose mappings agree chunk for chunk agree as one
/// merged mapping.
proof fn lemma_concat_maps(xs: Seq<Seq<MetaView>>, ys: Seq<Seq<MetaView>>)
    requires
        xs.len() == ys.len(),
        forall|k: int| 0 <= k < xs.len() ==> map_of(#[trigger] xs[k]) == map_of(ys[k]),
    ensures
        map_of(xs.flatten_alt()) == map_of(ys.flatten_alt()),
    decreases xs.len(),
{
    if xs.len() == 0 {
        assert(xs.flatten_alt() =~= Seq::<MetaView>::empty());
        assert(ys.flatten_alt() =~= Seq::<MetaView>::empty());
    } else {
        lemma_concat_maps(xs.drop_last(), ys.drop_last());
        assert(xs.flatten_alt() == xs.drop_last().flatten_alt() + xs.last());
        assert(ys.flatten_alt() == ys.drop_last().flatten_alt() + ys.last());
        lemma_map_of_append(xs.drop_last().flatten_alt(), xs.last());
        lemma_map_of_append(ys.drop_last().flatten_alt(), ys.last());
        assert(map_of(xs[xs.len() - 1]) == map_of(ys[ys.len() - 1]));
    }
}

/// The chunk slices of a record sequence, concatenated in order, are the
/// records themselves once every record has a slot.
proof fn lemma_slices_flatten(records: Seq<MetaView>, cap: int, n: int)
    requires
        cap >= 1,
        n >= 0,
    ensures
        Seq::new(n as nat, |k: int| chunk_slice(records, k, cap)).flatten_alt() =~= records.subrange(
            0,
            if n * cap <= records.len() {
                n * cap
            } else {
                records.len() as int
            },
        ),
    decreases n,
{
    let slices = Seq::new(n as nat, |k: int| chunk_slice(records, k, cap));
    if n == 0 {
        assert(slices.flatten_alt() =~= Seq::<MetaView>::empty());
    } else {
        lemma_slices_flatten(records, cap, n - 1);
        let prev = Seq::new((n - 1) as nat, |k: int| chunk_slice(records, k, cap));
        assert(slices.drop_last() =~= prev);
        assert(slices.last() == chunk_slice(records, n - 1, cap));
        assert(slices.flatten_alt() == slices.drop_last().flatten_alt() + slices.last());
        assert((n - 1) * cap >= 0) by (nonlinear_arith)
            requires
                n >= 1,
                cap >= 1,
        ;
        assert(n * cap == (n - 1) * cap + cap) by (nonlinear_arith);
        let lo = (n - 1) * cap;
        let hi = if n * cap <= records.len() {
            n * cap
        } else {
            records.len() as int
        };
        if lo <= records.len() {
            assert(chunk_slice(records, n - 1, cap) == records.subrange(lo, hi));
            assert(records.subrange(0, lo) + records.subrange(lo, hi) =~= records.subrange(0, hi));
        } else {
            assert(chunk_slice(records, n - 1, cap) =~= Seq::<MetaView>::empty());
        }
    }
}

/// Storing a catalog's records into fresh chunks and loading every chunk
/// back restores exactly the records' path-keyed mapping, however the
/// records fall across the chunk boundaries: what each stored chunk parses
/// to carries the mapping of its slice, and the merged load carries the
/// mapping of the whole.
pub proof fn lemma_save_load_restores_map(
    records: Seq<MetaView>,
    parses: Seq<Seq<MetaView>>,
    cap: int,
)
    requires
        cap >= 1,
        parses.len() * cap >= records.len(),
        forall|k: int|
            0 <= k < parses.len() ==> map_of(#[trigger] parses[k]) == map_of(
                chunk_slice(records, k, cap),
            ),
    ensures
        map_of(parses.flatten_alt()) == map_of(records),
{
    let n = parses.len() as int;
    let slices = Seq::new(n as nat, |k: int| chunk_slice(records, k, cap));
    lemma_concat_maps(parses, slices);
    lemma_slices_flatten(records, cap, n);
    assert(records.subrange(0, records.len() as int) =~= records);
}

// ------------------------------------------------------- duplicate detection
/// The candidate pairs from position (i, j) on: indices of two distinct
/// records of equal byte size, each unordered pair listed once, in index
/// order.
pub open spec fn cand_from(cat: Seq<MetaView>, i: int, j: int) -> Seq<(usize, usize)>
    decreases cat.len() - i, cat.len() - j,
{
    if !(0 <= i < cat.len()) {
        Seq::empty()
    } else if !(i < j) {
        Seq::empty()
    } else if j >= cat.len() {
        cand_from(cat, i + 1, i + 2)
    } else if cat[i].size == cat[j].size {
        seq![(i as usize, j as usize)] + cand_from(cat, i, j + 1)
    } else {
        cand_from(cat, i, j + 1)
    }
}

/// All candidate pairs of a catalog.
pub open spec fn cand_pairs(cat: Seq<MetaView>) -> Seq<(usize, usize)> {
    cand_from(cat, 0, 1)
}

/// Lists the pairs of records that share an exact byte size: the only
/// candidates for byte-identical content.  A record whose size no other
/// record has appears in no pair.
pub fn duplicate_candidate_pairs(catalog: &Catalog) -> (r: Vec<(usize, usize)>)
    ensures
        r@ == cand_pairs(catalog@),
        forall|t: int|
            0 <= t < r@.len() ==> (#[trigger] r@[t]).0 < r@[t].1 && r@[t].1 < catalog@.len()
                && catalog@[r@[t].0 as int].size == catalog@[r@[t].1 as int].size,
{
    let n: usize = catalog.entries.len();
    proof {
        assert(catalog@.len() == n);
        lemma_cand_from_sound(catalog@, 0, 1);
    }
    let mut out: Vec<(usize, usize)> = Vec::new();
    let mut i: usize = 0;
    proof {
        assert(catalog@.len() == n);
    }
    while i < n
        invariant
            n == catalog.entries@.len(),
            n == catalog@.len(),
            i <= n,
            cand_pairs(catalog@) == out@ + cand_from(catalog@, i as int, i + 1),
        decreases n - i,
    {
        let mut j: usize = i + 1;
        while j < n
            invariant
                n == catalog.entries@.len(),
                n == catalog@.len(),
                i < n,
                i < j,
                j <= n,
                cand_pairs(catalog@) == out@ + cand_from(catalog@, i as int, j as int),
            decreases n - j,
        {
            proof {
                assert(catalog@[i as int] == catalog.entries@[i as int]@);
                assert(catalog@[j as int] == catalog.entries@[j as int]@);
            }
            if catalog.entries[i].size == catalog.entries[j].size {
                let ghost out0 = out@;
                out.push((i, j));
                proof {
                    assert(cand_from(catalog@, i as int, j as int) == seq![(i, j)] + cand_from(
                        catalog@,
                        i as int,
                        j + 1,
                    ));
                    assert(out0 + (seq![(i, j)] + cand_from(catalog@, i as int, j + 1)) =~= (out0
                        + seq![(i, j)]) + cand_from(catalog@, i as int, j + 1));
                    assert(out@ =~= out0 + seq![(i, j)]);
                }
            }
            j = j + 1;
        }
        proof {
            assert(cand_from(catalog@, i as int, n as int) == cand_from(catalog@, i + 1, i + 2));
        }
        i = i + 1;
    }
    proof {
        assert(cand_from(catalog@, n as int, n + 1 as int) =~= Seq::<(usize, usize)>::empty());
        assert(out@ =~= cand_pairs(catalog@));
    }
    out
}

/// Every listed pair is a candidate: two distinct indices, in order, with
/// equal sizes.
pub proof fn lemma_cand_from_sound(cat: Seq<MetaView>, i: int, j: int)
    requires
        i < j,
        cat.len() <= usize::MAX,
    ensures
        forall|t: int|
            0 <= t < cand_from(cat, i, j).len() ==> i <= (#[trigger] cand_from(cat, i, j)[t]).0
                && cand_from(cat, i, j)[t].0 < cand_from(cat, i, j)[t].1 && cand_from(
                cat,
                i,
                j,
            )[t].1 < cat.len() && cat[cand_from(cat, i, j)[t].0 as int].size == cat[cand_from(
                cat,
                i,
                j,
            )[t].1 as int].size,
    decreases cat.len() - i, cat.len() - j,
{
    if !(0 <= i < cat.len()) {
    } else if j >= cat.len() {
        lemma_cand_from_sound(cat, i + 1, i + 2);
        let d = cand_from(cat, i, j);
        let inner = cand_from(cat, i + 1, i + 2);
        assert forall|t: int| 0 <= t < d.len() implies i <= (#[trigger] d[t]).0 && d[t].0 < d[t].1
            && d[t].1 < cat.len() && cat[d[t].0 as int].size == cat[d[t].1 as int].size by {
            assert(d[t] == inner[t]);
        }
    } else {
        lemma_cand_from_sound(cat, i, j + 1);
        let d = cand_from(cat, i, j);
        let rest = cand_from(cat, i, j + 1);
        if cat[i].size == cat[j].size {
            assert forall|t: int| 0 <= t < d.len() implies i <= (#[trigger] d[t]).0 && d[t].0
                < d[t].1 && d[t].1 < cat.len() && cat[d[t].0 as int].size == cat[
            d[t].1 as int].size by {
                if t == 0 {
                    assert(d[0] == (i as usize, j as usize));
                } else {
                    assert(d[t] == rest[t - 1]);
                }
            }
        } else {
            assert forall|t: int| 0 <= t < d.len() implies i <= (#[trigger] d[t]).0 && d[t].0
                < d[t].1 && d[t].1 < cat.len() && cat[d[t].0 as int].size == cat[
            d[t].1 as int].size by {
                assert(d[t] == rest[t]);
            }
        }
    }
}

/// Every unordered pair of distinct records with equal sizes is listed
/// exactly once.
pub proof fn lemma_cand_from_complete(cat: Seq<MetaView>, i: int, j: int, a: int, b: int)
    requires
        0 <= i,
        i < j,
        cat.len() <= usize::MAX,
        a < b < cat.len(),
        cat[a].size == cat[b].size,
        (a > i) || (a == i && b >= j),
    ensures
        cand_from(cat, i, j).contains((a as usize, b as usize)),
    decreases cat.len() - i, cat.len() - j,
{
    if !(0 <= i < cat.len()) {
        assert(false);
    } else if j >= cat.len() {
        lemma_cand_from_complete(cat, i + 1, i + 2, a, b);
    } else if a == i && b == j {
        assert(cand_from(cat, i, j)[0] == (a as usize, b as usize));
    } else {
        lemma_cand_from_complete(cat, i, j + 1, a, b);
        let rest = cand_from(cat, i, j + 1);
        let t = choose|t: int| 0 <= t < rest.len() && rest[t] == (a as usize, b as usize);
        if cat[i].size == cat[j].size {
            assert(cand_from(cat, i, j)[t + 1] == (a as usize, b as usize));
        }
    }
}

/// One pair precedes another in candidate order.
pub open spec fn pair_lt(a: (usize, usize), b: (usize, usize)) -> bool {
    a.0 < b.0 || (a.0 == b.0 && a.1 < b.1)
}

/// The candidate pairs are listed in strictly increasing order, so no
/// unordered pair is ever listed twice.
pub proof fn lemma_cand_from_ordered(cat: Seq<MetaView>, i: int, j: int)
    requires
        0 <= i,
        i < j,
        cat.len() <= usize::MAX,
    ensures
        forall|t1: int, t2: int|
            0 <= t1 < t2 < cand_from(cat, i, j).len() ==> pair_lt(
                #[trigger] cand_from(cat, i, j)[t1],
                #[trigger] cand_from(cat, i, j)[t2],
            ),
        forall|t: int|
            0 <= t < cand_from(cat, i, j).len() ==> (#[trigger] cand_from(cat, i, j)[t]).0 > i || (
            cand_from(cat, i, j)[t].0 == i && cand_from(cat, i, j)[t].1 >= j),
    decreases cat.len() - i, cat.len() - j,
{
    if !(0 <= i < cat.len()) {
    } else if j >= cat.len() {
        lemma_cand_from_ordered(cat, i + 1, i + 2);
        let d = cand_from(cat, i, j);
        let inner = cand_from(cat, i + 1, i + 2);
        assert forall|t: int| 0 <= t < d.len() implies (#[trigger] d[t]).0 > i || (d[t].0 == i
            && d[t].1 >= j) by {
            assert(d[t] == inner[t]);
        }
        assert forall|t1: int, t2: int| 0 <= t1 < t2 < d.len() implies pair_lt(
            #[trigger] d[t1],
            #[trigger] d[t2],
        ) by {
            assert(d[t1] == inner[t1]);
            assert(d[t2] == inner[t2]);
        }
    } else {
        lemma_cand_from_ordered(cat, i, j + 1);
        lemma_cand_from_sound(cat, i, j + 1);
        let d = cand_from(cat, i, j);
        let rest = cand_from(cat, i, j + 1);
        if cat[i].size == cat[j].size {
            assert forall|t: int| 0 <= t < d.len() implies (#[trigger] d[t]).0 > i || (d[t].0 == i
                && d[t].1 >= j) by {
                if t == 0 {
                    assert(d[0] == (i as usize, j as usize));
                } else {
                    assert(d[t] == rest[t - 1]);
                }
            }
            assert forall|t1: int, t2: int| 0 <= t1 < t2 < d.len() implies pair_lt(
                #[trigger] d[t1],
                #[trigger] d[t2],
            ) by {
                if t1 == 0 {
                    assert(d[0] == (i as usize, j as usize));
                    assert(d[t2] == rest[t2 - 1]);
                    assert(rest[t2 - 1].0 > i || (rest[t2 - 1].0 == i && rest[t2 - 1].1 >= j + 1));
                } else {
                    assert(d[t1] == rest[t1 - 1]);
                    assert(d[t2] == rest[t2 - 1]);
                }
            }
        } else {
            assert forall|t: int| 0 <= t < d.len() implies (#[trigger] d[t]).0 > i || (d[t].0 == i
                && d[t].1 >= j) by {
                assert(d[t] == rest[t]);
            }
            assert forall|t1: int, t2: int| 0 <= t1 < t2 < d.len() implies pair_lt(
                #[trigger] d[t1],
                #[trigger] d[t2],
            ) by {
                assert(d[t1] == rest[t1]);
                assert(d[t2] == rest[t2]);
            }
        }
    }
}

/// The pairs selected by the verdicts: candidate `t` is kept when
/// `verdicts[t]` holds.
pub open spec fn selected_pairs(pairs: Seq<(usize, usize)>, verdicts: Seq<bool>) -> Seq<
    (usize, usize),
>
    decreases pairs.len(),
{
    if pairs.len() == 0 || verdicts.len() < pairs.len() {
        Seq::empty()
    } else if verdicts.last() {
        selected_pairs(pairs.drop_last(), verdicts.drop_last()).push(pairs.last())
    } else {
        selected_pairs(pairs.drop_last(), verdicts.drop_last())
    }
}

/// Reports the duplicate pairs of a loaded catalog.  The caller compares
/// the candidate pairs' contents byte for byte and hands the verdicts back
/// in candidate order; a file whose content cannot be read counts as
/// identical to nothing.  The result holds one path pair per candidate
/// found byte-identical, in candidate order.
pub fn find_duplicate_files(catalog: &Catalog, verdicts: &Vec<bool>) -> (r: Vec<(String, String)>)
    requires
        verdicts@.len() == cand_pairs(catalog@).len(),
    ensures
        ({
            let sel = selected_pairs(cand_pairs(catalog@), verdicts@);
            &&& r@.len() == sel.len()
            &&& forall|t: int|
                0 <= t < sel.len() ==> (#[trigger] r@[t]).0@ == catalog@[sel[t].0 as int].path
                    && r@[t].1@ == catalog@[sel[t].1 as int].path
        }),
{
    let pairs = duplicate_candidate_pairs(catalog);
    let n: usize = pairs.len();
    let mut out: Vec<(String, String)> = Vec::new();
    let mut t: usize = 0;
    proof {
        lemma_selected_prefix(pairs@, verdicts@, 0);
    }
    while t < n
        invariant
            n == pairs@.len(),
            pairs@ == cand_pairs(catalog@),
            verdicts@.len() == n,
            t <= n,
            forall|u: int|
                0 <= u < n ==> (#[trigger] pairs@[u]).0 < pairs@[u].1 && pairs@[u].1
                    < catalog@.len(),
            ({
                let sel = selected_pairs(pairs@.subrange(0, t as int), verdicts@.subrange(0, t as int));
                &&& out@.len() == sel.len()
                &&& forall|u: int|
                    0 <= u < sel.len() ==> (#[trigger] out@[u]).0@ == catalog@[sel[u].0 as int].path
                        && out@[u].1@ == catalog@[sel[u].1 as int].path
            }),
        decreases n - t,
    {
        proof {
            let pp = pairs@.subrange(0, (t + 1) as int);
            let vv = verdicts@.subrange(0, (t + 1) as int);
            assert(pp.drop_last() =~= pairs@.subrange(0, t as int));
            assert(vv.drop_last() =~= verdicts@.subrange(0, t as int));
            assert(pp.last() == pairs@[t as int]);
            assert(vv.last() == verdicts@[t as int]);
        }
        if verdicts[t] {
            let (a, b) = pairs[t];
            proof {
                assert(pairs@[t as int].0 < catalog@.len());
                assert(catalog@[a as int] == catalog.entries@[a as int]@);
                assert(catalog@[b as int] == catalog.entries@[b as int]@);
            }
            let pa = catalog.entries[a].path.clone();
            let pb = catalog.entries[b].path.clone();
            out.push((pa, pb));
        }
        t = t + 1;
    }
    proof {
        assert(pairs@.subrange(0, n as int) =~= pairs@);
        assert(verdicts@.subrange(0, n as int) =~= verdicts@);
    }
    out
}

proof fn lemma_selected_prefix(pairs: Seq<(usize, usize)>, verdicts: Seq<bool>, t: int)
    ensures
        selected_pairs(pairs.subrange(0, 0), verdicts.subrange(0, 0)) == Seq::<
            (usize, usize),
        >::empty(),
{
    assert(pairs.subrange(0, 0) =~= Seq::<(usize, usize)>::empty());
}

} // verus!
