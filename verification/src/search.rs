//! The scanning search engine.
//!
//! A query is a literal byte needle or a compiled regular expression. The
//! engine walks every bucket class whose slot length can hold the needle
//! (regular expressions start from class 0), trimming each slot at its first
//! NUL byte, and walks the direct store's textual files; each hit reports
//! where the entry lives and the match span within its bytes.

use vstd::prelude::*;

use crate::buckets::{size_to_bucket, spec_bucket_len, spec_size_to_bucket};
use crate::database::Database;
use crate::error::Error;
use crate::names::{copy_slice, direct_file_name, parse_direct_file_name};
use crate::ring_reader::copy_range;

verus! {

/// The needle occurs in `hay` at position `i`.
pub open spec fn is_match_at(hay: Seq<u8>, needle: Seq<u8>, i: int) -> bool {
    &&& 0 <= i
    &&& i + needle.len() <= hay.len()
    &&& hay.subrange(i, i + needle.len()) == needle
}

/// The needle occurs somewhere in `hay`.
pub open spec fn contains_needle(hay: Seq<u8>, needle: Seq<u8>) -> bool {
    exists|i: int| is_match_at(hay, needle, i)
}

/// Relies on memchr::memchr: the index of the first occurrence of `needle`
/// in `haystack`, or `None` when it does not occur.
pub assume_specification[ memchr::memchr ](needle: u8, haystack: &[u8]) -> (r: Option<usize>)
    ensures
        match r {
            Some(i) => (i as int) < haystack@.len() && haystack@[i as int] == needle && forall|
                j: int,
            | 0 <= j < i ==> haystack@[j] != needle,
            None => forall|j: int| 0 <= j < haystack@.len() ==> haystack@[j] != needle,
        },
;

/// Relies on memchr::memmem::find: the index of the first occurrence of the
/// needle in the haystack, or `None` when it does not occur (an empty needle
/// occurs at every position).
pub assume_specification[ memchr::memmem::find ](haystack: &[u8], needle: &[u8]) -> (r: Option<
    usize,
>)
    ensures
        match r {
            Some(i) => is_match_at(haystack@, needle@, i as int) && forall|j: int|
                0 <= j < i ==> !is_match_at(haystack@, needle@, j),
            None => forall|j: int| !is_match_at(haystack@, needle@, j),
        },
;

#[verifier::external_type_specification]
#[verifier::external_body]
pub struct ExRegex(regex::bytes::Regex);

/// The span of the leftmost match of the pattern in the text: a name for
/// what `regex::bytes::Regex::find` returns, which depends on the pattern
/// and the text alone.
pub uninterp spec fn regex_find_of(re: regex::bytes::Regex, hay: Seq<u8>) -> Option<(int, int)>;

/// Relies on regex::bytes::Regex::find (and Match::start/Match::end): the
/// span of the leftmost match, a well-formed range into the haystack.
#[verifier::external_body]
fn regex_find(re: &regex::bytes::Regex, haystack: &[u8]) -> (r: Option<(usize, usize)>)
    ensures
        match r {
            Some((s, e)) => regex_find_of(*re, haystack@) == Some((s as int, e as int)) && s <= e
                <= haystack@.len(),
            None => regex_find_of(*re, haystack@) is None,
        },
{
    re.find(haystack).map(|m| (m.start(), m.end()))
}

/// A search query: a literal byte needle, or a compiled regular expression.
pub enum Query {
    Plain(Vec<u8>),
    Regex(regex::bytes::Regex),
}

/// Where a search hit lives.
#[derive(Clone, Copy, Debug, PartialEq, Eq, Structural)]
pub enum EntryLocation {
    /// Slot `index` of the bucket class `bucket`.
    Bucketed { bucket: u8, index: u32 },
    /// The direct entry with the given composite id.
    File { entry_id: u64 },
}

/// One search hit: the entry and the match span `[start, end)` within its
/// bytes.
#[derive(Clone, Copy, Debug, PartialEq, Eq, Structural)]
pub struct QueryResult {
    pub location: EntryLocation,
    pub start: usize,
    pub end: usize,
}

/// A bucket class and slot index packed into one ordered word.
#[derive(Clone, Copy, Debug, PartialEq, Eq, PartialOrd, Ord, Hash)]
pub struct BucketAndIndex(pub u32);

impl BucketAndIndex {
    pub open spec fn spec_bucket(self) -> u8 {
        (self.0 & 0xFF) as u8
    }

    pub open spec fn spec_index(self) -> u32 {
        self.0 >> 8u32
    }

    /// Packs `(bucket, index)`; the index must fit the word's high 24 bits.
    pub fn new(bucket: u8, index: u32) -> (r: BucketAndIndex)
        requires
            index < 0x0100_0000,
        ensures
            r.spec_bucket() == bucket,
            r.spec_index() == index,
    {
        let r = BucketAndIndex((index << 8u32) | bucket as u32);
        proof {
            let i = index;
            let b = bucket;
            assert(i < 0x0100_0000 ==> (((i << 8u32) | (b as u32)) & 0xFF) == b as u32)
                by (bit_vector);
            assert(i < 0x0100_0000 ==> (((i << 8u32) | (b as u32)) >> 8u32) == i) by (bit_vector);
        }
        r
    }

    pub fn bucket(&self) -> (r: u8)
        ensures
            r == self.spec_bucket(),
    {
        (self.0 & 0xFF) as u8
    }

    pub fn index(&self) -> (r: u32)
        ensures
            r == self.spec_index(),
    {
        self.0 >> 8u32
    }
}

/// The index of the first NUL byte of `s` (its length when none occurs).
pub open spec fn first_nul(s: Seq<u8>) -> int
    decreases s.len(),
{
    if s.len() == 0 {
        0
    } else if s[0] == 0 {
        0
    } else {
        1 + first_nul(s.drop_first())
    }
}

/// `s` trimmed at its first NUL byte: entries are NUL-padded to their slot's
/// stride.
pub open spec fn trimmed(s: Seq<u8>) -> Seq<u8> {
    s.take(first_nul(s))
}

/// `first_nul` is the first NUL: in range, a NUL when in bounds, and nothing
/// before it is NUL.
pub proof fn lemma_first_nul(s: Seq<u8>)
    ensures
        0 <= first_nul(s) <= s.len(),
        first_nul(s) < s.len() ==> s[first_nul(s)] == 0,
        forall|j: int| 0 <= j < first_nul(s) ==> s[j] != 0,
    decreases s.len(),
{
    if s.len() > 0 && s[0] != 0 {
        lemma_first_nul(s.drop_first());
        let f = first_nul(s);
        assert forall|j: int| 0 <= j < f implies s[j] != 0 by {
            if j > 0 {
                assert(s.drop_first()[j - 1] == s[j]);
            }
        }
        if f < s.len() {
            assert(s.drop_first()[f - 1] == s[f]);
        }
    }
}

/// Trims `chunk` at its first NUL byte.
fn trim_chunk(chunk: &Vec<u8>) -> (r: Vec<u8>)
    ensures
        r@ == trimmed(chunk@),
{
    proof {
        lemma_first_nul(chunk@);
    }
    match memchr::memchr(0, chunk.as_slice()) {
        Some(i) => {
            proof {
                let f = first_nul(chunk@);
                // both are the first NUL, so they coincide
                assert(f == i);
            }
            copy_slice(chunk, 0, i)
        },
        None => {
            proof {
                assert(first_nul(chunk@) == chunk@.len());
                assert(chunk@.take(chunk@.len() as int) =~= chunk@);
            }
            copy_slice(chunk, 0, chunk.len())
        },
    }
}

/// The searchable text of the slot `j` of bucket class `c`: the slot's
/// stride, trimmed at its first NUL.
pub open spec fn chunk_of(db: Database, c: int, j: int) -> Seq<u8> {
    trimmed(
        db.buckets.files@[c]@.subrange(
            j * spec_bucket_len(c),
            (j + 1) * spec_bucket_len(c),
        ),
    )
}

/// A result list hits the slot `j` of bucket class `c`.
pub open spec fn has_bucket_hit(rs: Seq<QueryResult>, c: u8, j: u32) -> bool {
    exists|x: int|
        0 <= x < rs.len() && (#[trigger] rs[x]).location == EntryLocation::Bucketed {
            bucket: c,
            index: j,
        }
}

/// A result list hits the direct entry with the composite id `id`.
pub open spec fn has_file_hit(rs: Seq<QueryResult>, id: u64) -> bool {
    exists|x: int|
        0 <= x < rs.len() && (#[trigger] rs[x]).location == EntryLocation::File { entry_id: id }
}

/// What one search hit claims, by query kind: a literal's span is the first
/// occurrence of the needle; any span lies within the searched text.
pub open spec fn result_sound(q: Query, hay: Seq<u8>, start: int, end: int) -> bool {
    &&& 0 <= start <= end <= hay.len()
    &&& (q matches Query::Plain(p) ==> {
        &&& is_match_at(hay, p@, start)
        &&& end == start + p@.len()
        &&& forall|i: int| 0 <= i < start ==> !is_match_at(hay, p@, i)
    })
    &&& (q matches Query::Regex(re) ==> regex_find_of(re, hay) == Some((start, end)))
}

/// The query matches somewhere in the text: a literal needle occurs in it,
/// or the pattern's leftmost match exists.
pub open spec fn query_hits(q: Query, hay: Seq<u8>) -> bool {
    match q {
        Query::Plain(p) => contains_needle(hay, p@),
        Query::Regex(re) => regex_find_of(re, hay) is Some,
    }
}

/// Searches one slot of one bucket class: the hit for the slot's trimmed
/// text, if the query matches it. This is the unit of work between two
/// checks of a worker's stop flag: a cancelled search stops after at most
/// one more slot.
pub fn search_bucket_step(db: &Database, bucket: u8, query: &Query, j: u32) -> (r: Option<
    QueryResult,
>)
    requires
        db.wf(),
        bucket < 11,
        (j as int) < db.buckets.spec_nslots(bucket as int),
    ensures
        match r {
            Some(qr) => {
                &&& qr.location == EntryLocation::Bucketed { bucket, index: j }
                &&& result_sound(*query, chunk_of(*db, bucket as int, j as int), qr.start as int, qr.end as int)
            },
            None => !query_hits(*query, chunk_of(*db, bucket as int, j as int)),
        },
{
    let st = crate::buckets::bucket_to_length(bucket) as usize;
    let jj = j as usize;
    proof {
        crate::database::lemma_nslots_bound(db.buckets, bucket as int, j as int);
        assert((jj + 1) * st == jj * st + st) by (nonlinear_arith);
        assert(jj + 1 <= (jj + 1) * st) by (nonlinear_arith)
            requires
                st >= 1,
                jj >= 0,
        ;
    }
    let flen = db.buckets.file_len(bucket);
    assert((jj + 1) * st <= flen);
    let raw = copy_range(&db.buckets.files[bucket as usize], jj * st, st);
    let text = trim_chunk(&raw);
    proof {
        assert(raw@ == db.buckets.files@[bucket as int]@.subrange(
            (jj * st) as int,
            (jj * st + st) as int,
        ));
        assert(text@ == chunk_of(*db, bucket as int, j as int));
    }
    let tlen = text.len();
    let found: Option<(usize, usize)> = match query {
        Query::Plain(p) => {
            match memchr::memmem::find(text.as_slice(), p.as_slice()) {
                Some(s) => {
                    assert(s + p@.len() <= tlen);
                    Some((s, s + p.len()))
                },
                None => None,
            }
        },
        Query::Regex(re) => regex_find(re, text.as_slice()),
    };
    match found {
        Some((start, end)) => Some(
            QueryResult { location: EntryLocation::Bucketed { bucket, index: j }, start, end },
        ),
        None => None,
    }
}

/// Searches every slot of one bucket class, in ascending slot order: for a
/// literal needle the hits are exactly the slots whose trimmed text contains
/// it.
pub fn search_bucket(db: &Database, bucket: u8, query: &Query) -> (r: Vec<QueryResult>)
    requires
        db.wf(),
        bucket < 11,
    ensures
        forall|x: int|
            0 <= x < r@.len() ==> {
                let qr = #[trigger] r@[x];
                &&& qr.location matches EntryLocation::Bucketed { bucket: b2, index: j } && b2
                    == bucket && (j as int) < db.buckets.spec_nslots(bucket as int)
                    && result_sound(
                    *query,
                    chunk_of(*db, bucket as int, j as int),
                    qr.start as int,
                    qr.end as int,
                )
            },
        forall|x: int, y: int|
            0 <= x < y < r@.len() ==> (#[trigger] r@[x]).location->Bucketed_index < (
            #[trigger] r@[y]).location->Bucketed_index,
        forall|j: u32|
            (j as int) < db.buckets.spec_nslots(bucket as int) ==> (#[trigger] has_bucket_hit(
                r@,
                bucket,
                j,
            ) <==> query_hits(*query, chunk_of(*db, bucket as int, j as int))),
{
    let st = crate::buckets::bucket_to_length(bucket) as usize;
    let flen = db.buckets.file_len(bucket);
    let nslots_u64 = (flen / st) as u64;
    let ghost ns = db.buckets.spec_nslots(bucket as int);
    let mut out: Vec<QueryResult> = Vec::new();
    let mut j: u64 = 0;
    while j < nslots_u64
        invariant
            db.wf(),
            bucket < 11,
            st == spec_bucket_len(bucket as int),
            ns == db.buckets.spec_nslots(bucket as int),
            nslots_u64 == ns,
            0 <= ns <= 0x1_0000_0000,
            j <= nslots_u64,
            forall|x: int|
                0 <= x < out@.len() ==> {
                    let qr = #[trigger] out@[x];
                    &&& qr.location matches EntryLocation::Bucketed { bucket: b2, index: jx }
                        && b2 == bucket && (jx as int) < j && result_sound(
                        *query,
                        chunk_of(*db, bucket as int, jx as int),
                        qr.start as int,
                        qr.end as int,
                    )
                },
            forall|x: int, y: int|
                0 <= x < y < out@.len() ==> (#[trigger] out@[x]).location->Bucketed_index < (
                #[trigger] out@[y]).location->Bucketed_index,
            forall|j2: u32|
                (j2 as int) < j ==> (#[trigger] has_bucket_hit(out@, bucket, j2) <==> query_hits(
                    *query,
                    chunk_of(*db, bucket as int, j2 as int),
                )),
        decreases nslots_u64 - j,
    {
        proof {
            vstd::arithmetic::div_mod::lemma_fundamental_div_mod(flen as int, st as int);
        }
        let ghost pre = out@;
        match search_bucket_step(db, bucket, query, j as u32) {
            Some(qr) => {
                out.push(qr);
                proof {
                    assert forall|j2: u32| (j2 as int) < j + 1 implies (#[trigger] has_bucket_hit(
                        out@,
                        bucket,
                        j2,
                    ) <==> query_hits(*query, chunk_of(*db, bucket as int, j2 as int))) by {
                        if (j2 as int) < j {
                            assert(has_bucket_hit(pre, bucket, j2) == has_bucket_hit(
                                out@,
                                bucket,
                                j2,
                            )) by {
                                if has_bucket_hit(pre, bucket, j2) {
                                    let x = choose|x: int|
                                        0 <= x < pre.len() && (#[trigger] pre[x]).location
                                            == EntryLocation::Bucketed { bucket, index: j2 };
                                    assert(out@[x] == pre[x]);
                                }
                                if has_bucket_hit(out@, bucket, j2) {
                                    let x = choose|x: int|
                                        0 <= x < out@.len() && (#[trigger] out@[x]).location
                                            == EntryLocation::Bucketed { bucket, index: j2 };
                                    assert(x < pre.len());
                                    assert(pre[x] == out@[x]);
                                }
                            };
                        } else {
                            assert(out@[out@.len() - 1] == qr);
                            assert(has_bucket_hit(out@, bucket, j2));
                        }
                    }
                }
            },
            None => {
                proof {
                    assert forall|j2: u32|
                        (j2 as int) < j + 1 && query_hits(
                            *query,
                            chunk_of(*db, bucket as int, j2 as int),
                        ) implies #[trigger] has_bucket_hit(out@, bucket, j2) by {
                        assert((j2 as int) < j);
                    }
                }
            },
        }
        j = j + 1;
    }
    out
}

/// A search hit into the direct store is sound: it names a direct file with
/// a textual MIME type, and its span is a match in that file's bytes.
pub open spec fn file_hit_sound(db: Database, q: Query, qr: QueryResult) -> bool {
    exists|d: int|
        {
            let f = #[trigger] db.direct.files@[d];
            &&& 0 <= d < db.direct.files@.len()
            &&& qr.location == EntryLocation::File {
                entry_id: crate::protocol::spec_composite_id(f.ring, f.slot),
            }
            &&& spec_is_text_mime(f.mime@)
            &&& result_sound(q, f.data@, qr.start as int, qr.end as int)
        }
}

/// A needle cannot occur in text shorter than itself.
proof fn lemma_contains_needs_room(hay: Seq<u8>, needle: Seq<u8>)
    ensures
        hay.len() < needle.len() ==> !contains_needle(hay, needle),
{
}

/// The empty needle occurs in any text, at the start: a literal search for
/// it begins at class `size_to_bucket(0) == 0` and hits every entry at
/// `[0, 0)`.
pub proof fn lemma_empty_needle_matches_everywhere(hay: Seq<u8>)
    ensures
        is_match_at(hay, Seq::<u8>::empty(), 0),
        contains_needle(hay, Seq::<u8>::empty()),
        spec_size_to_bucket(0) == 0,
{
    assert(hay.subrange(0, 0) =~= Seq::<u8>::empty());
}

/// Searches the whole database: every bucket class whose slots can hold the
/// needle (all of them, for a regular expression), then the direct store's
/// textual files. For a literal needle the result is complete: every bucket
/// slot whose trimmed text contains it, and every textual direct file that
/// contains it, is hit.
pub fn search(query: Query, db: &Database) -> (r: Result<Vec<QueryResult>, Error>)
    requires
        db.wf(),
    ensures
        match r {
            Ok(rs) => {
                // every hit is sound
                &&& forall|x: int|
                    0 <= x < rs@.len() ==> {
                        let qr = #[trigger] rs@[x];
                        match qr.location {
                            EntryLocation::Bucketed { bucket, index } => bucket < 11 && (
                            index as int) < db.buckets.spec_nslots(bucket as int)
                                && result_sound(
                                query,
                                chunk_of(*db, bucket as int, index as int),
                                qr.start as int,
                                qr.end as int,
                            ),
                            EntryLocation::File { entry_id } => file_hit_sound(*db, query, qr),
                        }
                    }
                // every match is hit, literal needle or pattern alike
                &&& forall|c: u8, j: u32|
                    c < 11 && (j as int) < db.buckets.spec_nslots(c as int) && query_hits(
                        query,
                        chunk_of(*db, c as int, j as int),
                    ) ==> #[trigger] has_bucket_hit(rs@, c, j)
                &&& forall|d: int|
                    0 <= d < db.direct.files@.len() && spec_is_text_mime(
                        (#[trigger] db.direct.files@[d]).mime@,
                    ) && query_hits(query, db.direct.files@[d].data@) ==> has_file_hit(
                        rs@,
                        crate::protocol::spec_composite_id(
                            db.direct.files@[d].ring,
                            db.direct.files@[d].slot,
                        ),
                    )
                // and no entry is reported twice
                &&& forall|x: int, y: int|
                    0 <= x < y < rs@.len() ==> (#[trigger] rs@[x]).location != (
                    #[trigger] rs@[y]).location
            },
            Err(e) => false,
        },
{
    let first_bucket: u8 = match &query {
        Query::Plain(p) => {
            if p.len() > 4096 {
                11
            } else {
                size_to_bucket(p.len() as u32)
            }
        },
        Query::Regex(_) => 0,
    };
    proof {
        // classes below the first one have slots too short for the needle
        if let Query::Plain(p) = &query {
            if p@.len() <= 4096 {
                crate::buckets::lemma_size_to_bucket_smallest(p@.len() as u32);
            }
            assert forall|c: u8, j: int|
                c < first_bucket && 0 <= j < db.buckets.spec_nslots(c as int)
                    implies !query_hits(query, #[trigger] chunk_of(*db, c as int, j)) by {
                let st = spec_bucket_len(c as int) as int;
                crate::database::lemma_nslots_bound(db.buckets, c as int, j);
                assert((j + 1) * st == j * st + st) by (nonlinear_arith);
                let region = db.buckets.files@[c as int]@.subrange(j * st, (j + 1) * st);
                assert(region.len() == st);
                lemma_first_nul(region);
                assert(chunk_of(*db, c as int, j).len() <= spec_bucket_len(c as int));
                assert(spec_bucket_len(c as int) < p@.len());
                lemma_contains_needs_room(chunk_of(*db, c as int, j), p@);
            }
        }
    }
    let mut out: Vec<QueryResult> = Vec::new();
    let mut c = first_bucket;
    while c < 11
        invariant
            db.wf(),
            first_bucket <= c <= 11,
            forall|x: int|
                0 <= x < out@.len() ==> {
                    let qr = #[trigger] out@[x];
                    qr.location matches EntryLocation::Bucketed { bucket, index } && first_bucket
                        <= bucket < c && (index as int) < db.buckets.spec_nslots(bucket as int)
                        && result_sound(
                        query,
                        chunk_of(*db, bucket as int, index as int),
                        qr.start as int,
                        qr.end as int,
                    )
                },
            forall|c2: u8, j: u32|
                first_bucket <= c2 < c && (j as int) < db.buckets.spec_nslots(c2 as int)
                    && query_hits(query, chunk_of(*db, c2 as int, j as int))
                    ==> #[trigger] has_bucket_hit(out@, c2, j),
            forall|x: int, y: int|
                0 <= x < y < out@.len() ==> (#[trigger] out@[x]).location != (
                #[trigger] out@[y]).location,
        decreases 11 - c,
    {
        let ghost pre = out@;
        let mut hits = search_bucket(db, c, &query);
        let ghost hs = hits@;
        out.append(&mut hits);
        proof {
            assert(out@ == pre + hs);
            assert forall|c2: u8, j: u32|
                first_bucket <= c2 < c + 1 && (j as int) < db.buckets.spec_nslots(c2 as int)
                    && query_hits(query, chunk_of(*db, c2 as int, j as int)) implies #[trigger]
            has_bucket_hit(out@, c2, j) by {
                if c2 < c {
                    assert(has_bucket_hit(pre, c2, j));
                    let x = choose|x: int|
                        0 <= x < pre.len() && (#[trigger] pre[x]).location
                            == EntryLocation::Bucketed { bucket: c2, index: j };
                    assert(out@[x] == pre[x]);
                } else {
                    assert(has_bucket_hit(hs, c2, j));
                    let x = choose|x: int|
                        0 <= x < hs.len() && (#[trigger] hs[x]).location
                            == EntryLocation::Bucketed { bucket: c2, index: j };
                    assert(out@[pre.len() + x] == hs[x]);
                }
            }
            assert forall|x: int, y: int|
                0 <= x < y < out@.len() implies (#[trigger] out@[x]).location != (
            #[trigger] out@[y]).location by {
                if x < pre.len() && y < pre.len() {
                } else if x >= pre.len() && y >= pre.len() {
                    // one class's hits come in strictly ascending slot order
                    assert(out@[x] == hs[x - pre.len()] && out@[y] == hs[y - pre.len()]);
                    assert(hs[x - pre.len()].location->Bucketed_index < hs[y
                        - pre.len()].location->Bucketed_index);
                } else {
                    // earlier classes' hits name earlier classes
                    assert(out@[x] == pre[x] && out@[y] == hs[y - pre.len()]);
                    assert(pre[x].location matches EntryLocation::Bucketed { bucket: b2, .. }
                        && b2 < c);
                    assert(hs[y - pre.len()].location matches EntryLocation::Bucketed {
                        bucket: b3,
                        ..
                    } && b3 == c);
                }
            }
        }
        c = c + 1;
    }

    // the direct-store walker: search every textual file
    let ghost after_buckets = out@;
    let mut d: usize = 0;
    while d < db.direct.files.len()
        invariant
            db.wf(),
            d <= db.direct.files@.len(),
            after_buckets.len() <= out@.len(),
            forall|x: int| 0 <= x < after_buckets.len() ==> out@[x] == after_buckets[x],
            forall|x: int|
                0 <= x < out@.len() ==> {
                    let qr = #[trigger] out@[x];
                    match qr.location {
                        EntryLocation::Bucketed { bucket, index } => bucket < 11 && (
                        index as int) < db.buckets.spec_nslots(bucket as int) && result_sound(
                            query,
                            chunk_of(*db, bucket as int, index as int),
                            qr.start as int,
                            qr.end as int,
                        ),
                        EntryLocation::File { entry_id } => file_hit_sound(*db, query, qr),
                    }
                },
            forall|c2: u8, j: u32|
                c2 < 11 && (j as int) < db.buckets.spec_nslots(c2 as int) && query_hits(
                    query,
                    chunk_of(*db, c2 as int, j as int),
                ) ==> #[trigger] has_bucket_hit(out@, c2, j),
            forall|d2: int|
                0 <= d2 < d && spec_is_text_mime((#[trigger] db.direct.files@[d2]).mime@)
                    && query_hits(query, db.direct.files@[d2].data@) ==> has_file_hit(
                    out@,
                    crate::protocol::spec_composite_id(
                        db.direct.files@[d2].ring,
                        db.direct.files@[d2].slot,
                    ),
                ),
            forall|x: int|
                0 <= x < after_buckets.len() ==> (#[trigger] out@[x]).location is Bucketed,
            forall|x: int|
                after_buckets.len() <= x < out@.len() ==> exists|d2: int|
                    #![auto]
                    {
                        &&& 0 <= d2 < d
                        &&& (#[trigger] out@[x]).location == EntryLocation::File {
                            entry_id: crate::protocol::spec_composite_id(
                                db.direct.files@[d2].ring,
                                db.direct.files@[d2].slot,
                            ),
                        }
                    },
            forall|x: int, y: int|
                0 <= x < y < out@.len() ==> (#[trigger] out@[x]).location != (
                #[trigger] out@[y]).location,
        decreases db.direct.files@.len() - d,
    {
        let ghost pre = out@;
        let f = &db.direct.files[d];
        if is_text_mime(&f.mime) {
            let found: Option<(usize, usize)> = match &query {
                Query::Plain(p) => {
                    match memchr::memmem::find(f.data.as_slice(), p.as_slice()) {
                        Some(s) => {
                            let dlen = f.data.len();
                            assert(s + p@.len() <= dlen);
                            Some((s, s + p.len()))
                        },
                        None => None,
                    }
                },
                Query::Regex(re) => regex_find(re, f.data.as_slice()),
            };
            if let Some((start, end)) = found {
                // recover the composite id from the file's on-disk name
                let name = direct_file_name(f.ring, f.slot);
                proof {
                    crate::names::lemma_direct_file_name_roundtrip(f.ring, f.slot);
                }
                let (ring_num, slot_num) = match parse_direct_file_name(&name) {
                    Ok(p) => p,
                    Err(e) => {
                        proof {
                            assert(false);
                        }
                        return Err(e);
                    },
                };
                proof {
                    let u0 = crate::names::spec_u32_decimal(
                        f.ring.spec_value() as u32,
                    ).len() as int;
                    let u1 = choose|u: int|
                        {
                            &&& #[trigger] crate::names::valid_split_at(name@, u)
                            &&& ring_num == crate::names::spec_decimal_value(name@.take(u))
                            &&& slot_num == crate::names::spec_decimal_value(name@.skip(u + 1))
                        };
                    crate::names::lemma_split_unique(name@, u0, u1);
                    assert(ring_num == f.ring.spec_value() && slot_num == f.slot);
                }
                let entry_id: u64 = (ring_num as u64) * 0x1_0000_0000 + slot_num as u64;
                assert(entry_id == crate::protocol::spec_composite_id(f.ring, f.slot));
                let qr = QueryResult { location: EntryLocation::File { entry_id }, start, end };
                out.push(qr);
                proof {
                    assert(file_hit_sound(*db, query, qr)) by {
                        assert(db.direct.files@[d as int] == *f);
                    };
                    assert forall|c2: u8, j: u32|
                        c2 < 11 && (j as int) < db.buckets.spec_nslots(c2 as int) && query_hits(
                            query,
                            chunk_of(*db, c2 as int, j as int),
                        ) implies #[trigger] has_bucket_hit(out@, c2, j) by {
                        assert(has_bucket_hit(pre, c2, j));
                        let x = choose|x: int|
                            0 <= x < pre.len() && (#[trigger] pre[x]).location
                                == EntryLocation::Bucketed { bucket: c2, index: j };
                        assert(out@[x] == pre[x]);
                    }
                    assert forall|d2: int|
                        0 <= d2 < d + 1 && spec_is_text_mime(
                            (#[trigger] db.direct.files@[d2]).mime@,
                        ) && query_hits(query, db.direct.files@[d2].data@) implies has_file_hit(
                        out@,
                        crate::protocol::spec_composite_id(
                            db.direct.files@[d2].ring,
                            db.direct.files@[d2].slot,
                        ),
                    ) by {
                        if d2 < d {
                            let id2 = crate::protocol::spec_composite_id(
                                db.direct.files@[d2].ring,
                                db.direct.files@[d2].slot,
                            );
                            assert(has_file_hit(pre, id2));
                            let x = choose|x: int|
                                0 <= x < pre.len() && (#[trigger] pre[x]).location
                                    == EntryLocation::File { entry_id: id2 };
                            assert(out@[x] == pre[x]);
                        } else {
                            assert(out@[out@.len() - 1] == qr);
                        }
                    }
                    // the new hit names a file no earlier hit names
                    assert forall|x: int, y: int|
                        0 <= x < y < out@.len() implies (#[trigger] out@[x]).location != (
                    #[trigger] out@[y]).location by {
                        if y < pre.len() {
                        } else {
                            assert(out@[y] == qr);
                            if x < after_buckets.len() {
                                assert(out@[x].location is Bucketed);
                            } else {
                                let d2 = choose|d2: int|
                                    #![auto]
                                    {
                                        &&& 0 <= d2 < d
                                        &&& pre[x].location == EntryLocation::File {
                                            entry_id: crate::protocol::spec_composite_id(
                                                db.direct.files@[d2].ring,
                                                db.direct.files@[d2].slot,
                                            ),
                                        }
                                    };
                                // distinct files have distinct keys, so distinct ids
                                assert(!(db.direct.files@[d2].ring == f.ring
                                    && db.direct.files@[d2].slot == f.slot));
                                crate::protocol::lemma_composite_injective(
                                    db.direct.files@[d2].ring,
                                    db.direct.files@[d2].slot,
                                    f.ring,
                                    f.slot,
                                );
                            }
                        }
                    }
                }
            }
        }
        d = d + 1;
    }
    Ok(out)
}

/// The fixed set of MIME types the direct-store walker treats as text,
/// chosen here as the empty (absent) type plus every `text/...` subtype:
/// the walker searches exactly the files whose type is in this set.
pub open spec fn spec_is_text_mime(m: Seq<u8>) -> bool {
    ||| m.len() == 0
    ||| (m.len() >= 5 && m[0] == 116 && m[1] == 101 && m[2] == 120 && m[3] == 116 && m[4] == 47)
}

/// Whether the direct-store walker searches a file with this MIME type.
pub fn is_text_mime(m: &Vec<u8>) -> (r: bool)
    ensures
        r == spec_is_text_mime(m@),
{
    if m.len() == 0 {
        return true;
    }
    m.len() >= 5 && m[0] == 116 && m[1] == 101 && m[2] == 120 && m[3] == 116 && m[4] == 47
}

} // verus!
