use vstd::prelude::*;

use crate::bytes::{
    i16_at, read_i16, read_u16, read_u32, read_u64, spec_crc32, u16_at, u32_at, u64_at, crc32_simple,
};
use crate::types::{FeatureVector8, KnownStyle, MovePriorConfig, div_trunc};

verus! {

/// "DATA", little-endian: the first four bytes of a database.
pub const DB_MAGIC: u32 = 0x44415441;

/// Magic number of the footer.
pub const DB_FOOTER_MAGIC: u32 = 0x544144;

/// Format version this loader reads.
pub const DB_VERSION: u32 = 3;

/// Section of opponent fingerprints.
pub const DB_SECTION_FINGERPRINTS: u32 = 1;

/// Section of centroids (reserved).
pub const DB_SECTION_CENTROIDS: u32 = 2;

/// Section of prior configurations.
pub const DB_SECTION_PRIOR_CONFIGS: u32 = 3;

/// Section of metadata (reserved).
pub const DB_SECTION_METADATA: u32 = 4;

/// Bytes of the header.
pub const HEADER_SIZE: usize = 40;

/// Bytes of the footer.
pub const FOOTER_SIZE: usize = 8;

/// Bytes of a section descriptor.
pub const SECTION_SIZE: usize = 16;

/// Bytes of a stored fingerprint.
pub const FINGERPRINT_SIZE: usize = 64;

/// Bytes of a stored prior configuration, with its id.
pub const PRIOR_ENTRY_SIZE: usize = 36;

/// Most fingerprints and most prior configurations the database holds.
pub const MAX_ENTRIES: usize = 16;

/// The header of a database: magic, version, number of sections, CRC of the body, build and
/// baseline ids, two reserved words.
#[derive(Clone, Copy, Debug, Default)]
struct DBHeader {
    magic: u32,
    version: u32,
    section_count: u32,
    crc32: u32,
    build_id: u64,
    baseline_id: u64,
    reserved: [u32; 2],
}

/// A known opponent: its id and style, the sides it is seen on (bit 0 first, bit 1 second),
/// the moves needed before matching, the confidence threshold in percent, the margin to the
/// runner-up, the mean and the inverse variance of its features, and the prior configuration
/// to use against it.
#[derive(Clone, Copy, Debug, Default)]
pub struct KnownFingerprint {
    pub id: u32,
    pub style: u32,
    pub side_mask: u8,
    pub min_moves: u8,
    pub confidence_threshold: u8,
    pub margin_to_second: u8,
    pub mean: FeatureVector8,
    pub var: FeatureVector8,
    pub prior_config_id: u32,
}

/// A prior configuration with its id.
#[derive(Clone, Copy, Debug, Default)]
pub struct LoadedPriorConfig {
    pub id: u32,
    pub config: MovePriorConfig,
}

/// `fp` is the fingerprint stored at offset `o` of `d`: id, style, four bytes, mean at 16,
/// inverse variance at 32 (eight 16-bit values each), prior configuration id at 48.
pub open spec fn fp_decoded(fp: KnownFingerprint, d: Seq<u8>, o: int) -> bool {
    &&& fp.id == u32_at(d, o)
    &&& fp.style == u32_at(d, o + 4)
    &&& fp.side_mask == d[o + 8]
    &&& fp.min_moves == d[o + 9]
    &&& fp.confidence_threshold == d[o + 10]
    &&& fp.margin_to_second == d[o + 11]
    &&& forall|k: int| 0 <= k < 8 ==> #[trigger] fp.mean.dim@[k] == i16_at(d, o + 16 + 2 * k)
    &&& forall|k: int| 0 <= k < 8 ==> #[trigger] fp.var.dim@[k] == i16_at(d, o + 32 + 2 * k)
    &&& fp.prior_config_id == u32_at(d, o + 48)
}

/// `e` is the prior configuration stored at offset `o` of `d`: id, eight shape boosts, the
/// six other boosts and penalties, the cap (16-bit unsigned) and the minimum confidence.
pub open spec fn pc_decoded(e: LoadedPriorConfig, d: Seq<u8>, o: int) -> bool {
    &&& e.id == u32_at(d, o)
    &&& forall|k: int| 0 <= k < 8 ==> #[trigger] e.config.shape_boost@[k] == i16_at(d, o + 4 + 2 * k)
    &&& e.config.medium_rect_boost == i16_at(d, o + 20)
    &&& e.config.barrier_boost == i16_at(d, o + 22)
    &&& e.config.connection_boost == i16_at(d, o + 24)
    &&& e.config.dead_cell_risk_penalty == i16_at(d, o + 26)
    &&& e.config.side_boost_first == i16_at(d, o + 28)
    &&& e.config.side_boost_second == i16_at(d, o + 30)
    &&& e.config.max_total_adjustment == u16_at(d, o + 32)
    &&& e.config.confidence_min == d[o + 34]
}

/// `x`, at most 16.
pub open spec fn min16(x: int) -> int {
    if x < 16 {
        x
    } else {
        16
    }
}

/// Offsets of `n` records of `size` bytes from `start`.
pub open spec fn record_offsets(start: int, n: int, size: int) -> Seq<int> {
    Seq::new(n as nat, |i: int| start + size * i)
}

/// Walks `remaining` sections from `offset` (none may reach into the footer), collecting the
/// offsets of the fingerprints (at most 16 per section, 64 bytes each) and of the prior
/// configurations (at most 16 per section, 36 bytes each). The flag says whether every
/// section fitted; on failure the offsets collected so far are kept.
pub open spec fn walk(d: Seq<u8>, offset: int, remaining: int, fpo: Seq<int>, pco: Seq<int>) -> (bool, Seq<int>, Seq<int>)
    decreases remaining,
{
    if remaining <= 0 {
        (true, fpo, pco)
    } else {
        let limit = d.len() - 8;
        if offset + 16 > limit {
            (false, fpo, pco)
        } else {
            let stype = u32_at(d, offset);
            let size = u32_at(d, offset + 8) as int;
            let start = offset + 16;
            if start + size > limit {
                (false, fpo, pco)
            } else if stype == 1 {
                walk(d, start + size, remaining - 1, fpo + record_offsets(start, min16(size / 64), 64), pco)
            } else if stype == 3 {
                walk(d, start + size, remaining - 1, fpo, pco + record_offsets(start, min16(size / 36), 36))
            } else {
                walk(d, start + size, remaining - 1, fpo, pco)
            }
        }
    }
}

/// The walk over all sections of a database.
pub open spec fn sections_of(d: Seq<u8>) -> (bool, Seq<int>, Seq<int>) {
    walk(d, 40, u32_at(d, 8) as int, Seq::empty(), Seq::empty())
}

/// The header names this format: magic and version.
pub open spec fn header_ok(d: Seq<u8>) -> bool {
    u32_at(d, 0) == DB_MAGIC && u32_at(d, 4) == DB_VERSION
}

/// The body (between header and footer) is not empty and its CRC is the one in the header.
pub open spec fn crc_ok(d: Seq<u8>) -> bool {
    d.len() > 48 && u32_at(d, 12) == spec_crc32(d.subrange(40, d.len() - 8))
}

/// A database that passes its checks but lists more than 16 fingerprints or more than 16
/// prior configurations in all (more than the loader has room for).
pub open spec fn overflows_tables(d: Seq<u8>) -> bool {
    &&& d.len() >= 48
    &&& header_ok(d)
    &&& crc_ok(d)
    &&& (sections_of(d).1.len() > 16 || sections_of(d).2.len() > 16)
}

/// Loaded opponent data: whether the last load succeeded, the bytes, the header, the known
/// fingerprints and the prior configurations.
pub struct OpponentDB {
    loaded: bool,
    data: Vec<u8>,
    header: DBHeader,
    fingerprints: Vec<KnownFingerprint>,
    prior_configs: Vec<LoadedPriorConfig>,
}

impl OpponentDB {
    /// Whether the last load succeeded.
    pub closed spec fn spec_loaded(&self) -> bool {
        self.loaded
    }

    /// The bytes of the last load that got past the size check.
    pub closed spec fn spec_data(&self) -> Seq<u8> {
        self.data@
    }

    /// The known fingerprints.
    pub closed spec fn spec_fingerprints(&self) -> Seq<KnownFingerprint> {
        self.fingerprints@
    }

    /// The prior configurations.
    pub closed spec fn spec_prior_configs(&self) -> Seq<LoadedPriorConfig> {
        self.prior_configs@
    }

    /// An empty database, not loaded.
    pub fn new() -> (db: Self)
        ensures
            !db.spec_loaded(),
            db.spec_data().len() == 0,
            db.spec_fingerprints().len() == 0,
            db.spec_prior_configs().len() == 0,
    {
        OpponentDB {
            loaded: false,
            data: Vec::new(),
            header: DBHeader {
                magic: 0,
                version: 0,
                section_count: 0,
                crc32: 0,
                build_id: 0,
                baseline_id: 0,
                reserved: [0, 0],
            },
            fingerprints: Vec::new(),
            prior_configs: Vec::new(),
        }
    }
}

/// Decodes the fingerprint at offset `o`.
fn decode_fingerprint(d: &[u8], o: usize) -> (fp: KnownFingerprint)
    requires
        o + 64 <= d.len(),
    ensures
        fp_decoded(fp, d@, o as int),
{
    let mean = FeatureVector8 {
        dim: [
            read_i16(d, o + 16),
            read_i16(d, o + 18),
            read_i16(d, o + 20),
            read_i16(d, o + 22),
            read_i16(d, o + 24),
            read_i16(d, o + 26),
            read_i16(d, o + 28),
            read_i16(d, o + 30),
        ],
    };
    let var = FeatureVector8 {
        dim: [
            read_i16(d, o + 32),
            read_i16(d, o + 34),
            read_i16(d, o + 36),
            read_i16(d, o + 38),
            read_i16(d, o + 40),
            read_i16(d, o + 42),
            read_i16(d, o + 44),
            read_i16(d, o + 46),
        ],
    };
    let fp = KnownFingerprint {
        id: read_u32(d, o),
        style: read_u32(d, o + 4),
        side_mask: d[o + 8],
        min_moves: d[o + 9],
        confidence_threshold: d[o + 10],
        margin_to_second: d[o + 11],
        mean,
        var,
        prior_config_id: read_u32(d, o + 48),
    };
    proof {
        assert forall|k: int| 0 <= k < 8 implies #[trigger] fp.mean.dim@[k] == i16_at(d@, o + 16 + 2 * k) by {
            assert(k == 0 || k == 1 || k == 2 || k == 3 || k == 4 || k == 5 || k == 6 || k == 7);
        }
        assert forall|k: int| 0 <= k < 8 implies #[trigger] fp.var.dim@[k] == i16_at(d@, o + 32 + 2 * k) by {
            assert(k == 0 || k == 1 || k == 2 || k == 3 || k == 4 || k == 5 || k == 6 || k == 7);
        }
    }
    fp
}

/// Decodes the prior configuration (with its id) at offset `o`.
fn decode_prior_config(d: &[u8], o: usize) -> (e: LoadedPriorConfig)
    requires
        o + 36 <= d.len(),
    ensures
        pc_decoded(e, d@, o as int),
{
    let cfg = MovePriorConfig {
        shape_boost: [
            read_i16(d, o + 4),
            read_i16(d, o + 6),
            read_i16(d, o + 8),
            read_i16(d, o + 10),
            read_i16(d, o + 12),
            read_i16(d, o + 14),
            read_i16(d, o + 16),
            read_i16(d, o + 18),
        ],
        medium_rect_boost: read_i16(d, o + 20),
        barrier_boost: read_i16(d, o + 22),
        connection_boost: read_i16(d, o + 24),
        dead_cell_risk_penalty: read_i16(d, o + 26),
        side_boost_first: read_i16(d, o + 28),
        side_boost_second: read_i16(d, o + 30),
        max_total_adjustment: read_u16(d, o + 32),
        confidence_min: d[o + 34],
    };
    let e = LoadedPriorConfig { id: read_u32(d, o), config: cfg };
    proof {
        assert forall|k: int| 0 <= k < 8 implies #[trigger] e.config.shape_boost@[k] == i16_at(d@, o + 4 + 2 * k) by {
            assert(k == 0 || k == 1 || k == 2 || k == 3 || k == 4 || k == 5 || k == 6 || k == 7);
        }
    }
    e
}

/// The walk keeps the offsets it started with and only adds to them.
pub proof fn lemma_walk_grows(d: Seq<u8>, offset: int, remaining: int, fpo: Seq<int>, pco: Seq<int>)
    ensures
        walk(d, offset, remaining, fpo, pco).1.len() >= fpo.len(),
        walk(d, offset, remaining, fpo, pco).2.len() >= pco.len(),
    decreases remaining,
{
    if remaining > 0 {
        let limit = d.len() - 8;
        if offset + 16 <= limit {
            let stype = u32_at(d, offset);
            let size = u32_at(d, offset + 8) as int;
            let start = offset + 16;
            if start + size <= limit {
                if stype == 1 {
                    lemma_walk_grows(d, start + size, remaining - 1, fpo + record_offsets(start, min16(size / 64), 64), pco);
                } else if stype == 3 {
                    lemma_walk_grows(d, start + size, remaining - 1, fpo, pco + record_offsets(start, min16(size / 36), 36));
                } else {
                    lemma_walk_grows(d, start + size, remaining - 1, fpo, pco);
                }
            }
        }
    }
}

/// The fingerprints and prior configurations are the records at the given offsets.
pub open spec fn tables_decoded(d: Seq<u8>, fps: Seq<KnownFingerprint>, pcs: Seq<LoadedPriorConfig>, fpo: Seq<int>, pco: Seq<int>) -> bool {
    &&& fps.len() == fpo.len()
    &&& pcs.len() == pco.len()
    &&& forall|k: int| 0 <= k < fps.len() ==> fp_decoded(#[trigger] fps[k], d, fpo[k])
    &&& forall|k: int| 0 <= k < pcs.len() ==> pc_decoded(#[trigger] pcs[k], d, pco[k])
}

impl OpponentDB {
    /// Whether the CRC of the body matches the header's (false for an empty body).
    fn validate_crc32(&self) -> (ok: bool)
        requires
            self.data@.len() >= 48,
            self.header.crc32 == u32_at(self.data@, 12),
        ensures
            ok == crc_ok(self.data@),
    {
        let n = self.data.len();
        if HEADER_SIZE >= n - FOOTER_SIZE {
            return false;
        }
        let body = vstd::slice::slice_subrange(self.data.as_slice(), HEADER_SIZE, n - FOOTER_SIZE);
        let expected = self.header.crc32;
        let actual = crc32_simple(body);
        expected == actual
    }

    /// Reads the sections (see `walk`) into the fingerprint and prior tables, from empty ones.
    fn parse_sections(&mut self) -> (ok: bool)
        requires
            old(self).data@.len() >= 48,
            old(self).header.section_count == u32_at(old(self).data@, 8),
            sections_of(old(self).data@).1.len() <= 16,
            sections_of(old(self).data@).2.len() <= 16,
        ensures
            final(self).data == old(self).data,
            final(self).header == old(self).header,
            final(self).loaded == old(self).loaded,
            ok == sections_of(old(self).data@).0,
            tables_decoded(
                old(self).data@,
                final(self).fingerprints@,
                final(self).prior_configs@,
                sections_of(old(self).data@).1,
                sections_of(old(self).data@).2,
            ),
    {
        let ghost d = self.data@;
        self.fingerprints = Vec::new();
        self.prior_configs = Vec::new();
        let n = self.data.len();
        let limit = n - FOOTER_SIZE;
        let mut offset: usize = HEADER_SIZE;
        let count = self.header.section_count;
        let mut i: u32 = 0;
        let ghost mut fpo: Seq<int> = Seq::empty();
        let ghost mut pco: Seq<int> = Seq::empty();
        proof {
            lemma_walk_grows(d, 40, count as int, fpo, pco);
        }
        while i < count
            invariant
                self.data == old(self).data,
                self.header == old(self).header,
                self.loaded == old(self).loaded,
                self.data@ == d,
                d.len() == n,
                limit == n - 8,
                n >= 48,
                i <= count,
                40 <= offset <= limit,
                sections_of(d) == walk(d, offset as int, (count - i) as int, fpo, pco),
                sections_of(d).1.len() <= 16,
                sections_of(d).2.len() <= 16,
                fpo.len() <= 16,
                pco.len() <= 16,
                tables_decoded(d, self.fingerprints@, self.prior_configs@, fpo, pco),
            decreases count - i,
        {
            if SECTION_SIZE > limit - offset {
                return false;
            }
            let stype = read_u32(self.data.as_slice(), offset);
            let data_size = read_u32(self.data.as_slice(), offset + 8);
            offset = offset + SECTION_SIZE;
            if data_size as usize > limit - offset {
                return false;
            }
            let start = offset;
            let ghost rest = (count - i - 1) as int;
            if stype == DB_SECTION_FINGERPRINTS {
                let quotient = data_size as usize / FINGERPRINT_SIZE;
                let take = if quotient < MAX_ENTRIES {
                    quotient
                } else {
                    MAX_ENTRIES
                };
                let ghost added = record_offsets(start as int, take as int, 64);
                proof {
                    lemma_walk_grows(d, (start + data_size) as int, rest, fpo + added, pco);
                }
                let mut k: usize = 0;
                while k < take
                    invariant
                        self.data == old(self).data,
                        self.header == old(self).header,
                        self.loaded == old(self).loaded,
                        self.data@ == d,
                        d.len() == n,
                        limit == n - 8,
                        start + data_size <= limit,
                        take <= 16,
                        take * 64 <= data_size,
                        k <= take,
                        fpo.len() + take <= 16,
                        added == record_offsets(start as int, take as int, 64),
                        tables_decoded(d, self.fingerprints@, self.prior_configs@, fpo + added.take(k as int), pco),
                    decreases take - k,
                {
                    let o = start + k * FINGERPRINT_SIZE;
                    let fp = decode_fingerprint(self.data.as_slice(), o);
                    self.fingerprints.push(fp);
                    proof {
                        assert(added.take(k as int + 1) =~= added.take(k as int).push(o as int));
                        assert((fpo + added.take(k as int)).push(o as int) =~= fpo + added.take(k as int + 1));
                    }
                    k += 1;
                }
                proof {
                    assert(added.take(take as int) =~= added);
                    fpo = fpo + added;
                }
            } else if stype == DB_SECTION_PRIOR_CONFIGS {
                let quotient = data_size as usize / PRIOR_ENTRY_SIZE;
                let take = if quotient < MAX_ENTRIES {
                    quotient
                } else {
                    MAX_ENTRIES
                };
                let ghost added = record_offsets(start as int, take as int, 36);
                proof {
                    lemma_walk_grows(d, (start + data_size) as int, rest, fpo, pco + added);
                }
                let mut k: usize = 0;
                while k < take
                    invariant
                        self.data == old(self).data,
                        self.header == old(self).header,
                        self.loaded == old(self).loaded,
                        self.data@ == d,
                        d.len() == n,
                        limit == n - 8,
                        start + data_size <= limit,
                        take <= 16,
                        take * 36 <= data_size,
                        k <= take,
                        pco.len() + take <= 16,
                        added == record_offsets(start as int, take as int, 36),
                        tables_decoded(d, self.fingerprints@, self.prior_configs@, fpo, pco + added.take(k as int)),
                    decreases take - k,
                {
                    let o = start + k * PRIOR_ENTRY_SIZE;
                    let e = decode_prior_config(self.data.as_slice(), o);
                    self.prior_configs.push(e);
                    proof {
                        assert(added.take(k as int + 1) =~= added.take(k as int).push(o as int));
                        assert((pco + added.take(k as int)).push(o as int) =~= pco + added.take(k as int + 1));
                    }
                    k += 1;
                }
                proof {
                    assert(added.take(take as int) =~= added);
                    pco = pco + added;
                }
            }
            offset = offset + data_size as usize;
            i += 1;
        }
        true
    }

    /// Loads a database from `data`. Fewer than 48 bytes are refused and change nothing.
    /// Otherwise the bytes are kept and the header read; a wrong magic or version, a CRC
    /// mismatch (or an empty body), or a section reaching into the footer makes the load fail
    /// (the tables then keep what they held, or what was read before the bad section); on
    /// success the fingerprints and prior configurations are the records the sections list
    /// (see `walk`).
    pub fn load(&mut self, data: &[u8]) -> (ok: bool)
        requires
            !overflows_tables(data@),
        ensures
            data@.len() < 48 ==> !ok && *final(self) == *old(self),
            data@.len() >= 48 ==> {
                &&& final(self).spec_data() == data@
                &&& final(self).spec_loaded() == ok
                &&& if !header_ok(data@) || !crc_ok(data@) {
                    &&& !ok
                    &&& final(self).spec_fingerprints() == old(self).spec_fingerprints()
                    &&& final(self).spec_prior_configs() == old(self).spec_prior_configs()
                } else {
                    &&& ok == sections_of(data@).0
                    &&& tables_decoded(
                        data@,
                        final(self).spec_fingerprints(),
                        final(self).spec_prior_configs(),
                        sections_of(data@).1,
                        sections_of(data@).2,
                    )
                }
            },
    {
        if data.len() < HEADER_SIZE + FOOTER_SIZE {
            return false;
        }
        self.data = vstd::slice::slice_to_vec(data);
        let d = self.data.as_slice();
        self.header = DBHeader {
            magic: read_u32(d, 0),
            version: read_u32(d, 4),
            section_count: read_u32(d, 8),
            crc32: read_u32(d, 12),
            build_id: read_u64(d, 16),
            baseline_id: read_u64(d, 24),
            reserved: [read_u32(d, 32), read_u32(d, 36)],
        };
        if self.header.magic != DB_MAGIC || self.header.version != DB_VERSION {
            self.loaded = false;
            return false;
        }
        if !self.validate_crc32() {
            self.loaded = false;
            return false;
        }
        if !self.parse_sections() {
            self.loaded = false;
            return false;
        }
        self.loaded = true;
        true
    }

    /// Whether a database in `data` would pass its checks but list more fingerprints or prior
    /// configurations than the loader has room for (see `overflows_tables`).
    pub fn overflows_tables(data: &[u8]) -> (b: bool)
        ensures
            b == overflows_tables(data@),
    {
        if data.len() < HEADER_SIZE + FOOTER_SIZE {
            return false;
        }
        let mut probe = OpponentDB::new();
        probe.data = vstd::slice::slice_to_vec(data);
        let d = probe.data.as_slice();
        let magic = read_u32(d, 0);
        let version = read_u32(d, 4);
        probe.header.section_count = read_u32(d, 8);
        probe.header.crc32 = read_u32(d, 12);
        if magic != DB_MAGIC || version != DB_VERSION {
            return false;
        }
        if !probe.validate_crc32() {
            return false;
        }
        !probe.sections_fit()
    }

    /// Whether the sections list at most 16 fingerprints and at most 16 prior configurations
    /// in all.
    fn sections_fit(&self) -> (b: bool)
        requires
            self.data@.len() >= 48,
            self.header.section_count == u32_at(self.data@, 8),
        ensures
            b == (sections_of(self.data@).1.len() <= 16 && sections_of(self.data@).2.len() <= 16),
    {
        let ghost d = self.data@;
        let n = self.data.len();
        let limit = n - FOOTER_SIZE;
        let mut offset: usize = HEADER_SIZE;
        let count = self.header.section_count;
        let mut i: u32 = 0;
        let mut nf: usize = 0;
        let mut np: usize = 0;
        let ghost mut fpo: Seq<int> = Seq::empty();
        let ghost mut pco: Seq<int> = Seq::empty();
        while i < count
            invariant
                self.data@ == d,
                d.len() == n,
                limit == n - 8,
                n >= 48,
                i <= count,
                40 <= offset <= limit,
                sections_of(d) == walk(d, offset as int, (count - i) as int, fpo, pco),
                nf == fpo.len(),
                np == pco.len(),
                nf <= 16,
                np <= 16,
            decreases count - i,
        {
            if SECTION_SIZE > limit - offset {
                return true;
            }
            let stype = read_u32(self.data.as_slice(), offset);
            let data_size = read_u32(self.data.as_slice(), offset + 8);
            offset = offset + SECTION_SIZE;
            if data_size as usize > limit - offset {
                return true;
            }
            let ghost rest = (count - i - 1) as int;
            if stype == DB_SECTION_FINGERPRINTS {
                let quotient = data_size as usize / FINGERPRINT_SIZE;
                let take = if quotient < MAX_ENTRIES {
                    quotient
                } else {
                    MAX_ENTRIES
                };
                proof {
                    fpo = fpo + record_offsets(offset as int, take as int, 64);
                    lemma_walk_grows(d, (offset + data_size) as int, rest, fpo, pco);
                }
                nf = nf + take;
                if nf > MAX_ENTRIES {
                    return false;
                }
            } else if stype == DB_SECTION_PRIOR_CONFIGS {
                let quotient = data_size as usize / PRIOR_ENTRY_SIZE;
                let take = if quotient < MAX_ENTRIES {
                    quotient
                } else {
                    MAX_ENTRIES
                };
                proof {
                    pco = pco + record_offsets(offset as int, take as int, 36);
                    lemma_walk_grows(d, (offset + data_size) as int, rest, fpo, pco);
                }
                np = np + take;
                if np > MAX_ENTRIES {
                    return false;
                }
            }
            offset = offset + data_size as usize;
            i += 1;
        }
        true
    }

    /// The known fingerprints.
    pub fn fingerprints(&self) -> (fps: &[KnownFingerprint])
        ensures
            fps@ == self.spec_fingerprints(),
    {
        self.fingerprints.as_slice()
    }

    /// The first prior configuration with id `id`, if any.
    pub fn get_prior_config(&self, id: u32) -> (cfg: Option<&MovePriorConfig>)
        ensures
            match cfg {
                Some(c) => exists|i: int|
                    0 <= i < self.spec_prior_configs().len() && self.spec_prior_configs()[i].id == id
                        && *c == self.spec_prior_configs()[i].config && forall|j: int|
                        0 <= j < i ==> #[trigger] self.spec_prior_configs()[j].id != id,
                None => forall|i: int|
                    0 <= i < self.spec_prior_configs().len() ==> #[trigger] self.spec_prior_configs()[i].id != id,
            },
    {
        let mut i: usize = 0;
        while i < self.prior_configs.len()
            invariant
                i <= self.prior_configs@.len(),
                forall|j: int| 0 <= j < i ==> #[trigger] self.prior_configs@[j].id != id,
            decreases self.prior_configs@.len() - i,
        {
            if self.prior_configs[i].id == id {
                proof {
                    let k = i as int;
                    assert(0 <= k < self.spec_prior_configs().len() && self.spec_prior_configs()[k].id == id
                        && self.prior_configs@[k].config == self.spec_prior_configs()[k].config
                        && forall|j: int| 0 <= j < k ==> #[trigger] self.spec_prior_configs()[j].id != id);
                }
                return Some(&self.prior_configs[i].config);
            }
            i += 1;
        }
        None
    }

    /// The first prior configuration, if any.
    pub fn default_prior_config(&self) -> (cfg: Option<&MovePriorConfig>)
        ensures
            match cfg {
                Some(c) => self.spec_prior_configs().len() > 0 && *c == self.spec_prior_configs()[0].config,
                None => self.spec_prior_configs().len() == 0,
            },
    {
        if self.prior_configs.len() > 0 {
            return Some(&self.prior_configs[0].config);
        }
        None
    }

    /// Whether the last load succeeded.
    pub fn is_loaded(&self) -> (b: bool)
        ensures
            b == self.spec_loaded(),
    {
        self.loaded
    }
}

/// What is seen of the opponent so far: its moves, their shapes and total area, medium (5 to
/// 10 cells) and large (11 or more) rectangles, tall and wide ones, regions, moves that took
/// cells back, passes and the ply of the first one, moves with barrier potential, the last ply
/// seen, and whether we move first.
#[derive(Clone, Copy, Debug, Default)]
pub struct OpponentFingerprint {
    pub move_count: i32,
    pub shape_counts: [i32; 8],
    pub total_area: i32,
    pub medium_count: i32,
    pub large_count: i32,
    pub tall_count: i32,
    pub wide_count: i32,
    pub region_counts: [i32; 4],
    pub steal_seen: i32,
    pub pass_seen: i32,
    pub first_pass_ply: i32,
    pub barrier_freq: i32,
    pub side_ply: i32,
    pub we_are_first: bool,
}

/// `x * 128 / n` (rounded toward zero) can be computed in 32 bits.
pub open spec fn scaled_ok(x: i32, n: i32) -> bool {
    &&& i32::MIN <= x * 128 <= i32::MAX
    &&& !(x * 128 == i32::MIN && n == -1)
}

/// `a / b` rounded toward zero (the quotient of the magnitudes, negated when the signs
/// differ).
pub open spec fn quot_toward_zero(a: int, b: int) -> int {
    let q = (if a < 0 {
        -a
    } else {
        a
    }) / (if b < 0 {
        -b
    } else {
        b
    });
    if (a < 0) != (b < 0) {
        -q
    } else {
        q
    }
}

/// `x * 128 / n`, rounded toward zero, kept in 16 bits (wrapping).
pub open spec fn scaled(x: i32, n: i32) -> i16 {
    quot_toward_zero(x * 128, n as int) as i16
}

/// Whether `x * 128 / n` can be computed in 32 bits (see `scaled_ok`).
fn scale_fits(x: i32, n: i32) -> (b: bool)
    ensures
        b == scaled_ok(x, n),
{
    let a = (x as i64) * 128;
    i32::MIN as i64 <= a && a <= i32::MAX as i64 && !(a == i32::MIN as i64 && n == -1)
}

/// `x * 128 / n` rounded toward zero, kept in 16 bits (wrapping).
fn scale_feature(x: i32, n: i32) -> (v: i16)
    requires
        n != 0,
        scaled_ok(x, n),
    ensures
        v == scaled(x, n),
{
    let a = (x as i64) * 128;
    let b = n as i64;
    let ma = if a < 0 {
        -a
    } else {
        a
    };
    let mb = if b < 0 {
        -b
    } else {
        b
    };
    let qa = ma / mb;
    assert(0 <= qa <= ma) by (nonlinear_arith)
        requires
            qa == ma / mb,
            ma >= 0,
            mb >= 1,
    ;
    let q = if (a < 0) != (b < 0) {
        -qa
    } else {
        qa
    };
    assert(q == quot_toward_zero(x * 128, n as int));
    assert(mb == 1 ==> qa == ma) by (nonlinear_arith)
        requires
            qa == ma / mb,
    ;
    assert(mb >= 2 ==> qa <= ma / 2) by (nonlinear_arith)
        requires
            qa == ma / mb,
            ma >= 0,
    ;
    assert(i32::MIN <= q <= i32::MAX) by (nonlinear_arith)
        requires
            q == qa || q == -qa,
            0 <= qa <= ma,
            ma == a || ma == -a,
            i32::MIN <= a <= i32::MAX,
            a == i32::MIN ==> mb >= 2 || q == a,
            mb >= 2 ==> qa <= ma / 2,
            mb >= 1,
    ;
    let q32 = q as i32;
    #[verifier::truncate] (q32 as i16)
}

impl OpponentFingerprint {
    /// No observations yet.
    pub fn new() -> (fp: Self)
        ensures
            fp.move_count == 0,
            fp.shape_counts@ == seq![0i32, 0, 0, 0, 0, 0, 0, 0],
            fp.total_area == 0 && fp.medium_count == 0 && fp.large_count == 0,
            fp.tall_count == 0 && fp.wide_count == 0,
            fp.region_counts@ == seq![0i32, 0, 0, 0],
            fp.steal_seen == 0 && fp.pass_seen == 0 && fp.first_pass_ply == 0,
            fp.barrier_freq == 0 && fp.side_ply == 0 && !fp.we_are_first,
    {
        let fp = OpponentFingerprint {
            move_count: 0,
            shape_counts: [0, 0, 0, 0, 0, 0, 0, 0],
            total_area: 0,
            medium_count: 0,
            large_count: 0,
            tall_count: 0,
            wide_count: 0,
            region_counts: [0, 0, 0, 0],
            steal_seen: 0,
            pass_seen: 0,
            first_pass_ply: 0,
            barrier_freq: 0,
            side_ply: 0,
            we_are_first: false,
        };
        proof {
            assert(fp.shape_counts@ =~= seq![0i32, 0, 0, 0, 0, 0, 0, 0]);
            assert(fp.region_counts@ =~= seq![0i32, 0, 0, 0]);
        }
        fp
    }

    /// Every feature can be scaled without overflow.
    pub open spec fn features_ok(&self) -> bool {
        let n = self.move_count;
        &&& scaled_ok(self.total_area, n)
        &&& scaled_ok(self.medium_count, n)
        &&& scaled_ok(self.large_count, n)
        &&& scaled_ok(self.tall_count, n)
        &&& scaled_ok(self.wide_count, n)
        &&& scaled_ok(self.steal_seen, n)
        &&& scaled_ok(self.pass_seen, n)
        &&& scaled_ok(self.barrier_freq, n)
    }

    /// Whether every feature can be scaled without overflow (see `features_ok`).
    pub fn has_feature_room(&self) -> (b: bool)
        ensures
            b == self.features_ok(),
    {
        let n = self.move_count;
        scale_fits(self.total_area, n) && scale_fits(self.medium_count, n) && scale_fits(self.large_count, n)
            && scale_fits(self.tall_count, n) && scale_fits(self.wide_count, n) && scale_fits(self.steal_seen, n)
            && scale_fits(self.pass_seen, n) && scale_fits(self.barrier_freq, n)
    }

    /// The feature vector: all zero before any move; otherwise total area, medium, large,
    /// tall, wide, take-back, pass and barrier counts, each times 128 over the move count.
    pub fn to_feature_vector(&self) -> (fv: FeatureVector8)
        requires
            self.features_ok(),
        ensures
            self.move_count == 0 ==> fv.dim@ == seq![0i16, 0, 0, 0, 0, 0, 0, 0],
            self.move_count != 0 ==> fv.dim@ == seq![
                scaled(self.total_area, self.move_count),
                scaled(self.medium_count, self.move_count),
                scaled(self.large_count, self.move_count),
                scaled(self.tall_count, self.move_count),
                scaled(self.wide_count, self.move_count),
                scaled(self.steal_seen, self.move_count),
                scaled(self.pass_seen, self.move_count),
                scaled(self.barrier_freq, self.move_count),
            ],
    {
        let n = self.move_count;
        if n == 0 {
            let fv = FeatureVector8 { dim: [0, 0, 0, 0, 0, 0, 0, 0] };
            proof {
                assert(fv.dim@ =~= seq![0i16, 0, 0, 0, 0, 0, 0, 0]);
            }
            return fv;
        }
        let fv = FeatureVector8 {
            dim: [
                scale_feature(self.total_area, n),
                scale_feature(self.medium_count, n),
                scale_feature(self.large_count, n),
                scale_feature(self.tall_count, n),
                scale_feature(self.wide_count, n),
                scale_feature(self.steal_seen, n),
                scale_feature(self.pass_seen, n),
                scale_feature(self.barrier_freq, n),
            ],
        };
        proof {
            assert(fv.dim@ =~= seq![
                scaled(self.total_area, self.move_count),
                scaled(self.medium_count, self.move_count),
                scaled(self.large_count, self.move_count),
                scaled(self.tall_count, self.move_count),
                scaled(self.wide_count, self.move_count),
                scaled(self.steal_seen, self.move_count),
                scaled(self.pass_seen, self.move_count),
                scaled(self.barrier_freq, self.move_count),
            ]);
        }
        fv
    }
}

impl KnownFingerprint {
    /// The fingerprint applies to what was seen: it is marked for our opponent's side (bit 0
    /// when we move first, bit 1 when we move second) and enough moves were seen.
    pub open spec fn spec_applies_to(&self, seen: OpponentFingerprint) -> bool {
        let side_ok = if seen.we_are_first {
            self.side_mask & 1u8 != 0
        } else {
            self.side_mask & 2u8 != 0
        };
        side_ok && seen.move_count >= self.min_moves as i32
    }

    /// Whether the fingerprint applies to what was seen (see `spec_applies_to`).
    pub fn applies_to(&self, seen: &OpponentFingerprint) -> (b: bool)
        ensures
            b == self.spec_applies_to(*seen),
    {
        let first_ok = (self.side_mask & 1) != 0 && seen.we_are_first;
        let second_ok = (self.side_mask & 2) != 0 && !seen.we_are_first;
        if !first_ok && !second_ok {
            return false;
        }
        seen.move_count >= self.min_moves as i32
    }

    /// Bit 0 of the side mask marks the fingerprint for when we move first, bit 1 for when we
    /// move second: once enough moves are seen, the fingerprint applies while we move first
    /// exactly when the mask is odd, and while we move second exactly when the mask's second
    /// binary digit is 1 (so mask 1 applies only when we move first, mask 2 only when we move
    /// second, mask 3 always, mask 0 never); with fewer moves seen than its minimum it never
    /// applies.
    pub proof fn lemma_side_mask_bits(&self, seen: OpponentFingerprint)
        ensures
            seen.move_count < self.min_moves ==> !self.spec_applies_to(seen),
            seen.move_count >= self.min_moves ==> (self.spec_applies_to(seen) <==> if seen.we_are_first {
                self.side_mask % 2 == 1
            } else {
                (self.side_mask / 2) % 2 == 1
            }),
    {
        let m = self.side_mask;
        assert((m & 1u8 != 0) <==> (m % 2 == 1)) by (bit_vector);
        assert((m & 2u8 != 0) <==> ((m / 2) % 2 == 1)) by (bit_vector);
    }

    /// The style the fingerprint names.
    pub fn known_style(&self) -> (s: KnownStyle)
        ensures
            s == KnownStyle::spec_from_id(self.style),
    {
        KnownStyle::from_id(self.style)
    }
}

} // verus!
