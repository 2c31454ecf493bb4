use vstd::prelude::*;

use crate::bytes::{
    i16_at, le_i16, le_u16, le_u32, le_u64, lemma_i16_roundtrip, lemma_u16_roundtrip, lemma_u32_roundtrip,
    push_i16, push_u16, push_u32, push_u64, spec_crc32, crc32_simple, u32_at,
};
use crate::opponent_db::{
    LoadedPriorConfig, crc_ok, header_ok, min16, overflows_tables, pc_decoded, record_offsets, sections_of, walk,
    DB_FOOTER_MAGIC, DB_MAGIC, DB_SECTION_FINGERPRINTS, DB_SECTION_METADATA, DB_SECTION_PRIOR_CONFIGS, DB_VERSION};
use crate::types::{FeatureVector8, MovePriorConfig};

verus! {

/// The header of a database as written: magic, version, number of sections, CRC of the body,
/// build and baseline ids, two reserved words.
#[derive(Clone, Copy, Debug, Default)]
pub struct DBHeader {
    pub magic: u32,
    pub version: u32,
    pub section_count: u32,
    pub crc32: u32,
    pub build_id: u64,
    pub baseline_id: u64,
    pub reserved: [u32; 2],
}

/// A section descriptor: its type, the number of records, the bytes of its payload, a reserved
/// word.
#[derive(Clone, Copy, Debug, Default)]
pub struct DBSection {
    pub stype: u32,
    pub count: u32,
    pub data_size: u32,
    pub reserved: u32,
}

/// The footer: its magic number and the size of the whole database.
#[derive(Clone, Copy, Debug, Default)]
pub struct DBFooter {
    pub magic: u32,
    pub total_size: u32,
}

/// A fingerprint to write: id, style, side mask, minimum moves, confidence threshold, margin,
/// mean and inverse variance of the features, prior configuration id.
#[derive(Clone, Copy, Debug, Default)]
pub struct KnownFingerprintRaw {
    pub id: u32,
    pub style: u32,
    pub side_mask: u8,
    pub min_moves: u8,
    pub confidence_threshold: u8,
    pub margin_to_second: u8,
    pub mean: FeatureVector8,
    pub var: FeatureVector8,
    pub prior_config_id: u32,
}

impl KnownFingerprintRaw {
    /// The fingerprint with every number zero.
    pub open spec fn spec_zeroed() -> KnownFingerprintRaw {
        KnownFingerprintRaw {
            id: 0,
            style: 0,
            side_mask: 0,
            min_moves: 0,
            confidence_threshold: 0,
            margin_to_second: 0,
            mean: FeatureVector8 { dim: vstd::array::spec_array_fill_for_copy_type::<i16, 8>(0i16) },
            var: FeatureVector8 { dim: vstd::array::spec_array_fill_for_copy_type::<i16, 8>(0i16) },
            prior_config_id: 0,
        }
    }

    /// The fingerprint with every number zero.
    pub fn zeroed() -> (f: Self)
        ensures
            f == Self::spec_zeroed(),
    {
        let f = KnownFingerprintRaw {
            id: 0,
            style: 0,
            side_mask: 0,
            min_moves: 0,
            confidence_threshold: 0,
            margin_to_second: 0,
            mean: FeatureVector8 { dim: [0; 8] },
            var: FeatureVector8 { dim: [0; 8] },
            prior_config_id: 0,
        };
        proof {
            assert(f.mean.dim =~= vstd::array::spec_array_fill_for_copy_type::<i16, 8>(0i16));
            assert(f.var.dim =~= vstd::array::spec_array_fill_for_copy_type::<i16, 8>(0i16));
        }
        f
    }
}

/// A prior configuration to write, with its id.
#[derive(Clone, Copy, Debug, Default)]
pub struct PriorConfigEntry {
    pub id: u32,
    pub config: MovePriorConfig,
}

/// The 40 bytes of a header.
pub open spec fn header_bytes(h: DBHeader) -> Seq<u8> {
    le_u32(h.magic) + le_u32(h.version) + le_u32(h.section_count) + le_u32(h.crc32) + le_u64(h.build_id)
        + le_u64(h.baseline_id) + le_u32(h.reserved@[0]) + le_u32(h.reserved@[1])
}

/// The 16 bytes of a section descriptor.
pub open spec fn section_bytes(s: DBSection) -> Seq<u8> {
    le_u32(s.stype) + le_u32(s.count) + le_u32(s.data_size) + le_u32(s.reserved)
}

/// The 8 bytes of a footer.
pub open spec fn footer_bytes(f: DBFooter) -> Seq<u8> {
    le_u32(f.magic) + le_u32(f.total_size)
}

/// The 16 bytes of a feature vector.
pub open spec fn fv_bytes(fv: FeatureVector8) -> Seq<u8> {
    le_i16(fv.dim@[0]) + le_i16(fv.dim@[1]) + le_i16(fv.dim@[2]) + le_i16(fv.dim@[3]) + le_i16(fv.dim@[4])
        + le_i16(fv.dim@[5]) + le_i16(fv.dim@[6]) + le_i16(fv.dim@[7])
}

/// The 48 bytes of a written fingerprint (packed, without padding).
pub open spec fn fp_record(fp: KnownFingerprintRaw) -> Seq<u8> {
    le_u32(fp.id) + le_u32(fp.style) + seq![fp.side_mask, fp.min_moves, fp.confidence_threshold, fp.margin_to_second]
        + fv_bytes(fp.mean) + fv_bytes(fp.var) + le_u32(fp.prior_config_id)
}

/// The 32 bytes of a written prior configuration: eight shape boosts, six boosts and
/// penalties, the cap, the minimum confidence, a zero pad byte.
pub open spec fn prior_config_bytes(cfg: MovePriorConfig) -> Seq<u8> {
    le_i16(cfg.shape_boost@[0]) + le_i16(cfg.shape_boost@[1]) + le_i16(cfg.shape_boost@[2]) + le_i16(
        cfg.shape_boost@[3],
    ) + le_i16(cfg.shape_boost@[4]) + le_i16(cfg.shape_boost@[5]) + le_i16(cfg.shape_boost@[6]) + le_i16(
        cfg.shape_boost@[7],
    ) + le_i16(cfg.medium_rect_boost) + le_i16(cfg.barrier_boost) + le_i16(cfg.connection_boost) + le_i16(
        cfg.dead_cell_risk_penalty,
    ) + le_i16(cfg.side_boost_first) + le_i16(cfg.side_boost_second) + le_u16(cfg.max_total_adjustment)
        + seq![cfg.confidence_min, 0u8]
}

/// The 36 bytes of a written prior configuration entry: id, then the configuration.
pub open spec fn prior_record(e: PriorConfigEntry) -> Seq<u8> {
    le_u32(e.id) + prior_config_bytes(e.config)
}

/// The fingerprint records one after another.
pub open spec fn fps_payload(fps: Seq<KnownFingerprintRaw>) -> Seq<u8>
    decreases fps.len(),
{
    if fps.len() == 0 {
        Seq::empty()
    } else {
        fps_payload(fps.drop_last()) + fp_record(fps.last())
    }
}

/// The prior configuration records one after another.
pub open spec fn priors_payload(ps: Seq<PriorConfigEntry>) -> Seq<u8>
    decreases ps.len(),
{
    if ps.len() == 0 {
        Seq::empty()
    } else {
        priors_payload(ps.drop_last()) + prior_record(ps.last())
    }
}

/// Appends a header.
pub fn push_header(buf: &mut Vec<u8>, header: &DBHeader)
    ensures
        final(buf)@ == old(buf)@ + header_bytes(*header),
{
    let ghost b0 = buf@;
    push_u32(buf, header.magic);
    push_u32(buf, header.version);
    push_u32(buf, header.section_count);
    push_u32(buf, header.crc32);
    push_u64(buf, header.build_id);
    push_u64(buf, header.baseline_id);
    let mut i: usize = 0;
    while i < 2
        invariant
            i <= 2,
            buf@ == b0 + le_u32(header.magic) + le_u32(header.version) + le_u32(header.section_count)
                + le_u32(header.crc32) + le_u64(header.build_id) + le_u64(header.baseline_id) + if i == 0 {
                Seq::empty()
            } else if i == 1 {
                le_u32(header.reserved@[0])
            } else {
                le_u32(header.reserved@[0]) + le_u32(header.reserved@[1])
            },
        decreases 2 - i,
    {
        let ghost before = buf@;
        push_u32(buf, header.reserved[i]);
        proof {
            if i == 0 {
                assert(buf@ =~= b0 + le_u32(header.magic) + le_u32(header.version) + le_u32(header.section_count)
                    + le_u32(header.crc32) + le_u64(header.build_id) + le_u64(header.baseline_id) + le_u32(header.reserved@[0]));
            } else {
                assert(buf@ =~= b0 + le_u32(header.magic) + le_u32(header.version) + le_u32(header.section_count)
                    + le_u32(header.crc32) + le_u64(header.build_id) + le_u64(header.baseline_id) + (le_u32(
                    header.reserved@[0],
                ) + le_u32(header.reserved@[1])));
            }
        }
        i += 1;
    }
    proof {
        assert(buf@ =~= b0 + header_bytes(*header));
    }
}

/// Appends a section descriptor.
pub fn push_section(buf: &mut Vec<u8>, section: &DBSection)
    ensures
        final(buf)@ == old(buf)@ + section_bytes(*section),
{
    let ghost b0 = buf@;
    push_u32(buf, section.stype);
    push_u32(buf, section.count);
    push_u32(buf, section.data_size);
    push_u32(buf, section.reserved);
    proof {
        assert(buf@ =~= b0 + section_bytes(*section));
    }
}

/// Appends a footer.
pub fn push_footer(buf: &mut Vec<u8>, footer: &DBFooter)
    ensures
        final(buf)@ == old(buf)@ + footer_bytes(*footer),
{
    let ghost b0 = buf@;
    push_u32(buf, footer.magic);
    push_u32(buf, footer.total_size);
    proof {
        assert(buf@ =~= b0 + footer_bytes(*footer));
    }
}

/// Appends the eight values of a feature vector.
pub fn push_feature_vector(buf: &mut Vec<u8>, fv: &FeatureVector8)
    ensures
        final(buf)@ == old(buf)@ + fv_bytes(*fv),
{
    let ghost b0 = buf@;
    push_i16(buf, fv.dim[0]);
    push_i16(buf, fv.dim[1]);
    push_i16(buf, fv.dim[2]);
    push_i16(buf, fv.dim[3]);
    push_i16(buf, fv.dim[4]);
    push_i16(buf, fv.dim[5]);
    push_i16(buf, fv.dim[6]);
    push_i16(buf, fv.dim[7]);
    proof {
        assert(buf@ =~= b0 + fv_bytes(*fv));
    }
}

/// Appends a fingerprint record (48 bytes).
pub fn push_known_fingerprint(buf: &mut Vec<u8>, fp: &KnownFingerprintRaw)
    ensures
        final(buf)@ == old(buf)@ + fp_record(*fp),
{
    let ghost b0 = buf@;
    push_u32(buf, fp.id);
    push_u32(buf, fp.style);
    buf.push(fp.side_mask);
    buf.push(fp.min_moves);
    buf.push(fp.confidence_threshold);
    buf.push(fp.margin_to_second);
    push_feature_vector(buf, &fp.mean);
    push_feature_vector(buf, &fp.var);
    push_u32(buf, fp.prior_config_id);
    proof {
        assert(buf@ =~= b0 + fp_record(*fp));
    }
}

/// Appends a prior configuration (32 bytes, without its id).
pub fn push_prior_config(buf: &mut Vec<u8>, cfg: &MovePriorConfig)
    ensures
        final(buf)@ == old(buf)@ + prior_config_bytes(*cfg),
{
    let ghost b0 = buf@;
    push_i16(buf, cfg.shape_boost[0]);
    push_i16(buf, cfg.shape_boost[1]);
    push_i16(buf, cfg.shape_boost[2]);
    push_i16(buf, cfg.shape_boost[3]);
    push_i16(buf, cfg.shape_boost[4]);
    push_i16(buf, cfg.shape_boost[5]);
    push_i16(buf, cfg.shape_boost[6]);
    push_i16(buf, cfg.shape_boost[7]);
    push_i16(buf, cfg.medium_rect_boost);
    push_i16(buf, cfg.barrier_boost);
    push_i16(buf, cfg.connection_boost);
    push_i16(buf, cfg.dead_cell_risk_penalty);
    push_i16(buf, cfg.side_boost_first);
    push_i16(buf, cfg.side_boost_second);
    push_u16(buf, cfg.max_total_adjustment);
    buf.push(cfg.confidence_min);
    buf.push(0u8);
    proof {
        assert(buf@ =~= b0 + prior_config_bytes(*cfg));
    }
}

/// The fingerprint section: descriptor and records, or nothing for no fingerprints.
#[verifier::opaque]
pub open spec fn fps_section(fps: Seq<KnownFingerprintRaw>) -> Seq<u8> {
    if fps.len() > 0 {
        section_bytes(DBSection { stype: 1, count: fps.len() as u32, data_size: (48 * fps.len()) as u32, reserved: 0 })
            + fps_payload(fps)
    } else {
        Seq::empty()
    }
}

/// The prior configuration section: descriptor and records, or nothing for none.
#[verifier::opaque]
pub open spec fn priors_section(ps: Seq<PriorConfigEntry>) -> Seq<u8> {
    if ps.len() > 0 {
        section_bytes(DBSection { stype: 3, count: ps.len() as u32, data_size: (36 * ps.len()) as u32, reserved: 0 })
            + priors_payload(ps)
    } else {
        Seq::empty()
    }
}

/// The metadata section: descriptor and bytes, or nothing for no metadata.
#[verifier::opaque]
pub open spec fn meta_section(m: Seq<u8>) -> Seq<u8> {
    if m.len() > 0 {
        section_bytes(DBSection { stype: 4, count: 1, data_size: m.len() as u32, reserved: 0 }) + m
    } else {
        Seq::empty()
    }
}

/// The body: the fingerprint, prior configuration and metadata sections, each only when it
/// has content.
pub open spec fn db_body(fps: Seq<KnownFingerprintRaw>, ps: Seq<PriorConfigEntry>, m: Seq<u8>) -> Seq<u8> {
    fps_section(fps) + priors_section(ps) + meta_section(m)
}

/// The number of sections with content.
pub open spec fn db_section_count(fps: Seq<KnownFingerprintRaw>, ps: Seq<PriorConfigEntry>, m: Seq<u8>) -> u32 {
    ((if fps.len() > 0 {
        1int
    } else {
        0int
    }) + (if ps.len() > 0 {
        1int
    } else {
        0int
    }) + (if m.len() > 0 {
        1int
    } else {
        0int
    })) as u32
}

/// The header that a database built from these parts starts with.
pub open spec fn db_header(count: u32, crc: u32, build_id: u64, baseline_id: u64) -> Seq<u8> {
    le_u32(DB_MAGIC) + le_u32(DB_VERSION) + le_u32(count) + le_u32(crc) + le_u64(build_id) + le_u64(baseline_id)
        + le_u32(0) + le_u32(0)
}

/// A database: the header (with the CRC of the body), the body, and the footer holding the
/// total size.
pub open spec fn spec_database(
    build_id: u64,
    baseline_id: u64,
    ps: Seq<PriorConfigEntry>,
    fps: Seq<KnownFingerprintRaw>,
    m: Seq<u8>,
) -> Seq<u8> {
    let body = db_body(fps, ps, m);
    db_header(db_section_count(fps, ps, m), spec_crc32(body), build_id, baseline_id) + body + le_u32(DB_FOOTER_MAGIC)
        + le_u32((40 + body.len() + 8) as u32)
}

/// A database of these parts stays within 4 GiB (so every size fits its 32-bit field).
pub open spec fn database_fits(fps_len: int, priors_len: int, meta_len: int) -> bool {
    48 * fps_len + 36 * priors_len + meta_len + 96 <= u32::MAX
}

/// Whether a database of that many fingerprints, prior configurations and metadata bytes
/// fits in the 32-bit sizes it records (see `database_fits`).
pub fn fits_database(fps_len: usize, priors_len: usize, meta_len: usize) -> (b: bool)
    ensures
        b == database_fits(fps_len as int, priors_len as int, meta_len as int),
{
    let limit: u128 = 4294967295;
    48 * (fps_len as u128) + 36 * (priors_len as u128) + (meta_len as u128) + 96 <= limit
}

/// The length of the body: 16 bytes per present section, plus 48 per fingerprint, 36 per
/// prior configuration and the metadata.
pub proof fn lemma_body_len(fps: Seq<KnownFingerprintRaw>, ps: Seq<PriorConfigEntry>, m: Seq<u8>)
    ensures
        fps_section(fps).len() == if fps.len() > 0 {
            16 + 48 * fps.len()
        } else {
            0
        },
        priors_section(ps).len() == if ps.len() > 0 {
            16 + 36 * ps.len()
        } else {
            0
        },
        meta_section(m).len() == if m.len() > 0 {
            16 + m.len()
        } else {
            0
        },
{
    reveal(fps_section);
    reveal(priors_section);
    reveal(meta_section);
    lemma_fps_payload_len(fps);
    lemma_priors_payload(ps);
}

/// The fingerprint records have 48 bytes each.
pub proof fn lemma_fps_payload_len(fps: Seq<KnownFingerprintRaw>)
    ensures
        fps_payload(fps).len() == 48 * fps.len(),
    decreases fps.len(),
{
    if fps.len() > 0 {
        lemma_fps_payload_len(fps.drop_last());
    }
}

/// The prior configuration records have 36 bytes each, and record `k` sits at `36 * k`.
pub proof fn lemma_priors_payload(ps: Seq<PriorConfigEntry>)
    ensures
        priors_payload(ps).len() == 36 * ps.len(),
        forall|k: int|
            0 <= k < ps.len() ==> #[trigger] priors_payload(ps).subrange(36 * k, 36 * k + 36) == prior_record(ps[k]),
    decreases ps.len(),
{
    if ps.len() > 0 {
        let init = ps.drop_last();
        lemma_priors_payload(init);
        let p = priors_payload(ps);
        assert forall|k: int| 0 <= k < ps.len() implies #[trigger] priors_payload(ps).subrange(36 * k, 36 * k + 36)
            == prior_record(ps[k]) by {
            if k < init.len() {
                assert(p.subrange(36 * k, 36 * k + 36) =~= priors_payload(init).subrange(36 * k, 36 * k + 36));
            } else {
                assert(p.subrange(36 * k, 36 * k + 36) =~= prior_record(ps.last()));
            }
        }
    }
}

/// The fingerprint section (see `fps_section`).
fn fingerprint_section(fingerprints: &[KnownFingerprintRaw]) -> (sec: Vec<u8>)
    requires
        48 * fingerprints@.len() <= u32::MAX,
    ensures
        sec@ == fps_section(fingerprints@),
{
    let nf = fingerprints.len();
    let mut sec: Vec<u8> = Vec::new();
    if nf == 0 {
        proof {
            reveal(fps_section);
            assert(sec@ =~= fps_section(fingerprints@));
        }
        return sec;
    }
    let mut raw: Vec<u8> = Vec::new();
    let mut i: usize = 0;
    while i < nf
        invariant
            nf == fingerprints@.len(),
            i <= nf,
            raw@ == fps_payload(fingerprints@.subrange(0, i as int)),
        decreases nf - i,
    {
        proof {
            assert(fingerprints@.subrange(0, i as int + 1).drop_last() =~= fingerprints@.subrange(0, i as int));
        }
        push_known_fingerprint(&mut raw, &fingerprints[i]);
        i += 1;
    }
    proof {
        assert(fingerprints@.subrange(0, nf as int) =~= fingerprints@);
        lemma_fps_payload_len(fingerprints@);
    }
    let section = DBSection { stype: DB_SECTION_FINGERPRINTS, count: nf as u32, data_size: raw.len() as u32, reserved: 0 };
    push_section(&mut sec, &section);
    sec.append(&mut raw);
    proof {
        reveal(fps_section);
        assert(sec@ =~= fps_section(fingerprints@));
    }
    sec
}

/// The prior configuration section (see `priors_section`).
fn prior_section(priors: &[PriorConfigEntry]) -> (sec: Vec<u8>)
    requires
        36 * priors@.len() <= u32::MAX,
    ensures
        sec@ == priors_section(priors@),
{
    let np = priors.len();
    let mut sec: Vec<u8> = Vec::new();
    if np == 0 {
        proof {
            reveal(priors_section);
            assert(sec@ =~= priors_section(priors@));
        }
        return sec;
    }
    let mut raw: Vec<u8> = Vec::new();
    let mut i: usize = 0;
    while i < np
        invariant
            np == priors@.len(),
            i <= np,
            raw@ == priors_payload(priors@.subrange(0, i as int)),
        decreases np - i,
    {
        proof {
            assert(priors@.subrange(0, i as int + 1).drop_last() =~= priors@.subrange(0, i as int));
        }
        let ghost r0 = raw@;
        push_u32(&mut raw, priors[i].id);
        push_prior_config(&mut raw, &priors[i].config);
        proof {
            assert(raw@ =~= r0 + prior_record(priors@[i as int]));
        }
        i += 1;
    }
    proof {
        assert(priors@.subrange(0, np as int) =~= priors@);
        lemma_priors_payload(priors@);
    }
    let section = DBSection { stype: DB_SECTION_PRIOR_CONFIGS, count: np as u32, data_size: raw.len() as u32, reserved: 0 };
    push_section(&mut sec, &section);
    sec.append(&mut raw);
    proof {
        reveal(priors_section);
        assert(sec@ =~= priors_section(priors@));
    }
    sec
}

/// The metadata section (see `meta_section`).
fn metadata_section(metadata: &[u8]) -> (sec: Vec<u8>)
    requires
        metadata@.len() <= u32::MAX,
    ensures
        sec@ == meta_section(metadata@),
{
    let mut sec: Vec<u8> = Vec::new();
    if metadata.len() == 0 {
        proof {
            reveal(meta_section);
            assert(sec@ =~= meta_section(metadata@));
        }
        return sec;
    }
    let section = DBSection { stype: DB_SECTION_METADATA, count: 1, data_size: metadata.len() as u32, reserved: 0 };
    push_section(&mut sec, &section);
    sec.extend_from_slice(metadata);
    proof {
        reveal(meta_section);
        assert(sec@ =~= meta_section(metadata@));
    }
    sec
}

/// Writes the CRC into a header at the front of `bytes`.
fn write_crc(bytes: &mut Vec<u8>, crc: u32, count: u32, build_id: u64, baseline_id: u64, Ghost(body): Ghost<Seq<u8>>)
    requires
        old(bytes)@ == db_header(count, 0, build_id, baseline_id) + body,
    ensures
        final(bytes)@ == db_header(count, crc, build_id, baseline_id) + body,
{
    bytes.set(12, (crc & 0xff) as u8);
    bytes.set(13, ((crc >> 8) & 0xff) as u8);
    bytes.set(14, ((crc >> 16) & 0xff) as u8);
    bytes.set(15, ((crc >> 24) & 0xff) as u8);
    proof {
        assert(bytes@ =~= db_header(count, crc, build_id, baseline_id) + body);
    }
}

/// Builds a database from prior configurations, fingerprints and metadata (see
/// `spec_database`).
pub fn build_database_bytes(
    build_id: u64,
    baseline_id: u64,
    priors: &[PriorConfigEntry],
    fingerprints: &[KnownFingerprintRaw],
    metadata: &[u8],
) -> (bytes: Vec<u8>)
    requires
        database_fits(fingerprints@.len() as int, priors@.len() as int, metadata@.len() as int),
    ensures
        bytes@ == spec_database(build_id, baseline_id, priors@, fingerprints@, metadata@),
{
    let mut count: u32 = 0;
    if fingerprints.len() > 0 {
        count += 1;
    }
    if priors.len() > 0 {
        count += 1;
    }
    if metadata.len() > 0 {
        count += 1;
    }
    let header = DBHeader {
        magic: DB_MAGIC,
        version: DB_VERSION,
        section_count: count,
        crc32: 0,
        build_id,
        baseline_id,
        reserved: [0, 0],
    };
    let mut bytes: Vec<u8> = Vec::new();
    push_header(&mut bytes, &header);
    let ghost head = bytes@;
    proof {
        assert(head =~= db_header(count, 0, build_id, baseline_id));
    }
    let mut fsec = fingerprint_section(fingerprints);
    let mut psec = prior_section(priors);
    let mut msec = metadata_section(metadata);
    let ghost body = db_body(fingerprints@, priors@, metadata@);
    bytes.append(&mut fsec);
    bytes.append(&mut psec);
    bytes.append(&mut msec);
    proof {
        assert(bytes@ =~= head + body);
        lemma_body_len(fingerprints@, priors@, metadata@);
    }
    let crc = crc32_simple(vstd::slice::slice_subrange(bytes.as_slice(), 40, bytes.len()));
    proof {
        assert(bytes@.subrange(40, bytes@.len() as int) =~= body);
    }
    proof {
        assert(bytes@ =~= db_header(count, 0, build_id, baseline_id) + body);
    }
    write_crc(&mut bytes, crc, count, build_id, baseline_id, Ghost(body));
    let total = (bytes.len() + 8) as u32;
    let footer = DBFooter { magic: DB_FOOTER_MAGIC, total_size: total };
    push_footer(&mut bytes, &footer);
    proof {
        assert(count == db_section_count(fingerprints@, priors@, metadata@));
        assert(bytes@ =~= spec_database(build_id, baseline_id, priors@, fingerprints@, metadata@));
    }
    bytes
}

/// The two prior configurations built in when no file gives any: id 1 for the first side and
/// id 2 for the second.
pub fn default_prior_configs() -> (v: Vec<PriorConfigEntry>)
    ensures
        v@.len() == 2,
        v@[0].id == 1 && v@[1].id == 2,
        v@[0].config.shape_boost@ == seq![160i16, 170, 110, 130, 220, 50, 90, -30i16],
        v@[0].config.medium_rect_boost == 120 && v@[0].config.barrier_boost == 160,
        v@[0].config.connection_boost == 90 && v@[0].config.dead_cell_risk_penalty == 120,
        v@[0].config.side_boost_first == 60 && v@[0].config.side_boost_second == 0,
        v@[0].config.max_total_adjustment == 1500 && v@[0].config.confidence_min == 55,
        v@[1].config.shape_boost@ == seq![220i16, 230, 120, 180, 200, 30, 100, -120i16],
        v@[1].config.medium_rect_boost == 40 && v@[1].config.barrier_boost == 320,
        v@[1].config.connection_boost == 180 && v@[1].config.dead_cell_risk_penalty == 320,
        v@[1].config.side_boost_first == 0 && v@[1].config.side_boost_second == 220,
        v@[1].config.max_total_adjustment == 2200 && v@[1].config.confidence_min == 50,
{
    let first = PriorConfigEntry {
        id: 1,
        config: MovePriorConfig {
            shape_boost: [160, 170, 110, 130, 220, 50, 90, -30i16],
            medium_rect_boost: 120,
            barrier_boost: 160,
            connection_boost: 90,
            dead_cell_risk_penalty: 120,
            side_boost_first: 60,
            side_boost_second: 0,
            max_total_adjustment: 1500,
            confidence_min: 55,
        },
    };
    let second = PriorConfigEntry {
        id: 2,
        config: MovePriorConfig {
            shape_boost: [220, 230, 120, 180, 200, 30, 100, -120i16],
            medium_rect_boost: 40,
            barrier_boost: 320,
            connection_boost: 180,
            dead_cell_risk_penalty: 320,
            side_boost_first: 0,
            side_boost_second: 220,
            max_total_adjustment: 2200,
            confidence_min: 50,
        },
    };
    proof {
        assert(first.config.shape_boost@ =~= seq![160i16, 170, 110, 130, 220, 50, 90, -30i16]);
        assert(second.config.shape_boost@ =~= seq![220i16, 230, 120, 180, 200, 30, 100, -120i16]);
    }
    let mut v = Vec::new();
    v.push(first);
    v.push(second);
    v
}

/// A prior configuration record read back at offset `o` gives the entry written there.
pub proof fn lemma_prior_record_decodes(d: Seq<u8>, o: int, e: PriorConfigEntry)
    requires
        0 <= o,
        o + 36 <= d.len(),
        d.subrange(o, o + 36) == prior_record(e),
    ensures
        pc_decoded(LoadedPriorConfig { id: e.id, config: e.config }, d, o),
{
    let r = d.subrange(o, o + 36);
    let cfg = e.config;
    assert(d.subrange(o, o + 4) =~= le_u32(e.id)) by {
        assert(d.subrange(o, o + 4) =~= r.subrange(0, 4));
    }
    lemma_u32_roundtrip(d, o, e.id);
    assert forall|k: int| 0 <= k < 8 implies #[trigger] cfg.shape_boost@[k] == i16_at(d, o + 4 + 2 * k) by {
        assert(d.subrange(o + 4 + 2 * k, o + 6 + 2 * k) =~= r.subrange(4 + 2 * k, 6 + 2 * k));
        assert(r.subrange(4 + 2 * k, 6 + 2 * k) =~= le_i16(cfg.shape_boost@[k])) by {
            assert(k == 0 || k == 1 || k == 2 || k == 3 || k == 4 || k == 5 || k == 6 || k == 7);
        }
        lemma_i16_roundtrip(d, o + 4 + 2 * k, cfg.shape_boost@[k]);
    }
    assert(d.subrange(o + 20, o + 22) =~= le_i16(cfg.medium_rect_boost)) by {
        assert(d.subrange(o + 20, o + 22) =~= r.subrange(20, 22));
        assert(r.subrange(20, 22) =~= le_i16(cfg.medium_rect_boost));
    }
    lemma_i16_roundtrip(d, o + 20, cfg.medium_rect_boost);
    assert(d.subrange(o + 22, o + 24) =~= le_i16(cfg.barrier_boost)) by {
        assert(d.subrange(o + 22, o + 24) =~= r.subrange(22, 24));
        assert(r.subrange(22, 24) =~= le_i16(cfg.barrier_boost));
    }
    lemma_i16_roundtrip(d, o + 22, cfg.barrier_boost);
    assert(d.subrange(o + 24, o + 26) =~= le_i16(cfg.connection_boost)) by {
        assert(d.subrange(o + 24, o + 26) =~= r.subrange(24, 26));
        assert(r.subrange(24, 26) =~= le_i16(cfg.connection_boost));
    }
    lemma_i16_roundtrip(d, o + 24, cfg.connection_boost);
    assert(d.subrange(o + 26, o + 28) =~= le_i16(cfg.dead_cell_risk_penalty)) by {
        assert(d.subrange(o + 26, o + 28) =~= r.subrange(26, 28));
        assert(r.subrange(26, 28) =~= le_i16(cfg.dead_cell_risk_penalty));
    }
    lemma_i16_roundtrip(d, o + 26, cfg.dead_cell_risk_penalty);
    assert(d.subrange(o + 28, o + 30) =~= le_i16(cfg.side_boost_first)) by {
        assert(d.subrange(o + 28, o + 30) =~= r.subrange(28, 30));
        assert(r.subrange(28, 30) =~= le_i16(cfg.side_boost_first));
    }
    lemma_i16_roundtrip(d, o + 28, cfg.side_boost_first);
    assert(d.subrange(o + 30, o + 32) =~= le_i16(cfg.side_boost_second)) by {
        assert(d.subrange(o + 30, o + 32) =~= r.subrange(30, 32));
        assert(r.subrange(30, 32) =~= le_i16(cfg.side_boost_second));
    }
    lemma_i16_roundtrip(d, o + 30, cfg.side_boost_second);
    assert(d.subrange(o + 32, o + 34) =~= le_u16(cfg.max_total_adjustment)) by {
        assert(d.subrange(o + 32, o + 34) =~= r.subrange(32, 34));
        assert(r.subrange(32, 34) =~= le_u16(cfg.max_total_adjustment));
    }
    lemma_u16_roundtrip(d, o + 32, cfg.max_total_adjustment);
    assert(d[o + 34] == r[34]);
}

/// The number at offset `o` is `v` when its four bytes were written there.
proof fn lemma_u32_in(d: Seq<u8>, o: int, v: u32, part: Seq<u8>, at: int)
    requires
        0 <= at,
        at + 4 <= part.len(),
        0 <= o - at,
        o - at + part.len() <= d.len(),
        d.subrange(o - at, o - at + part.len()) == part,
        part.subrange(at, at + 4) == le_u32(v),
    ensures
        u32_at(d, o) == v,
{
    assert(d.subrange(o, o + 4) =~= part.subrange(at, at + 4));
    lemma_u32_roundtrip(d, o, v);
}

/// Where the first four fields of a header sit.
proof fn lemma_header_fields(count: u32, crc: u32, build_id: u64, baseline_id: u64)
    ensures
        db_header(count, crc, build_id, baseline_id).len() == 40,
        db_header(count, crc, build_id, baseline_id).subrange(0, 4) == le_u32(DB_MAGIC),
        db_header(count, crc, build_id, baseline_id).subrange(4, 8) == le_u32(DB_VERSION),
        db_header(count, crc, build_id, baseline_id).subrange(8, 12) == le_u32(count),
        db_header(count, crc, build_id, baseline_id).subrange(12, 16) == le_u32(crc),
{
    let h = db_header(count, crc, build_id, baseline_id);
    let a = le_u32(DB_MAGIC) + le_u32(DB_VERSION) + le_u32(count) + le_u32(crc);
    assert(h =~= a + (le_u64(build_id) + le_u64(baseline_id) + le_u32(0) + le_u32(0)));
    assert(h.subrange(0, 16) =~= a);
    assert(h.subrange(0, 4) =~= a.subrange(0, 4));
    assert(h.subrange(4, 8) =~= a.subrange(4, 8));
    assert(h.subrange(8, 12) =~= a.subrange(8, 12));
    assert(h.subrange(12, 16) =~= a.subrange(12, 16));
}

/// The type and the size of a section sit at its offsets 0 and 8.
proof fn lemma_section_fields(sec: Seq<u8>, sd: DBSection, rest: Seq<u8>)
    requires
        sec == section_bytes(sd) + rest,
    ensures
        sec.len() == 16 + rest.len(),
        sec.subrange(0, 4) == le_u32(sd.stype),
        sec.subrange(8, 12) == le_u32(sd.data_size),
        sec.subrange(16, sec.len() as int) == rest,
{
    let h = section_bytes(sd);
    assert(h.subrange(0, 4) =~= le_u32(sd.stype));
    assert(h.subrange(8, 12) =~= le_u32(sd.data_size));
    assert(sec.subrange(0, 4) =~= h.subrange(0, 4));
    assert(sec.subrange(8, 12) =~= h.subrange(8, 12));
    assert(sec.subrange(16, sec.len() as int) =~= rest);
}

/// Walking over the fingerprint section collects its records' offsets.
proof fn lemma_walk_fps(d: Seq<u8>, o1: int, o2: int, r: int, fps: Seq<KnownFingerprintRaw>, fpo: Seq<int>, pco: Seq<int>)
    requires
        fps.len() > 0,
        48 * fps.len() <= u32::MAX,
        0 <= o1 <= o2,
        o2 + 8 <= d.len(),
        r > 0,
        d.subrange(o1, o2) == fps_section(fps),
    ensures
        walk(d, o1, r, fpo, pco) == walk(
            d,
            o2,
            r - 1,
            fpo + record_offsets(o1 + 16, min16((48 * fps.len() as int) / 64), 64),
            pco,
        ),
{
    reveal(fps_section);
    lemma_fps_payload_len(fps);
    let sd = DBSection { stype: 1, count: fps.len() as u32, data_size: (48 * fps.len()) as u32, reserved: 0 };
    let sec = fps_section(fps);
    lemma_section_fields(sec, sd, fps_payload(fps));
    lemma_u32_in(d, o1, 1, sec, 0);
    lemma_u32_in(d, o1 + 8, (48 * fps.len()) as u32, sec, 8);
}

/// Walking over the prior configuration section collects its records' offsets, and each
/// record reads back as the entry written.
proof fn lemma_walk_priors(d: Seq<u8>, o2: int, o3: int, r: int, ps: Seq<PriorConfigEntry>, fpo: Seq<int>, pco: Seq<int>)
    requires
        ps.len() > 0,
        36 * ps.len() <= u32::MAX,
        0 <= o2 <= o3,
        o3 + 8 <= d.len(),
        r > 0,
        d.subrange(o2, o3) == priors_section(ps),
    ensures
        walk(d, o2, r, fpo, pco) == walk(d, o3, r - 1, fpo, pco + record_offsets(o2 + 16, min16(ps.len() as int), 36)),
        forall|k: int|
            0 <= k < min16(ps.len() as int) ==> pc_decoded(
                LoadedPriorConfig { id: ps[k].id, config: ps[k].config },
                d,
                #[trigger] record_offsets(o2 + 16, min16(ps.len() as int), 36)[k],
            ),
{
    reveal(priors_section);
    lemma_priors_payload(ps);
    let sd = DBSection { stype: 3, count: ps.len() as u32, data_size: (36 * ps.len()) as u32, reserved: 0 };
    let sec = priors_section(ps);
    lemma_section_fields(sec, sd, priors_payload(ps));
    lemma_u32_in(d, o2, 3, sec, 0);
    lemma_u32_in(d, o2 + 8, (36 * ps.len()) as u32, sec, 8);
    assert((36 * ps.len()) / 36 == ps.len()) by (nonlinear_arith);
    let offs = record_offsets(o2 + 16, min16(ps.len() as int), 36);
    assert forall|k: int| 0 <= k < min16(ps.len() as int) implies pc_decoded(
        LoadedPriorConfig { id: ps[k].id, config: ps[k].config },
        d,
        #[trigger] offs[k],
    ) by {
        let o = o2 + 16 + 36 * k;
        assert(offs[k] == o);
        assert(priors_payload(ps).subrange(36 * k, 36 * k + 36) == prior_record(ps[k]));
        assert(d.subrange(o, o + 36) =~= priors_payload(ps).subrange(36 * k, 36 * k + 36)) by {
            assert(d.subrange(o2 + 16, o3) =~= sec.subrange(16, sec.len() as int));
        }
        lemma_prior_record_decodes(d, o, ps[k]);
    }
}

/// Walking over the metadata section changes no offsets.
proof fn lemma_walk_meta(d: Seq<u8>, o3: int, o4: int, r: int, m: Seq<u8>, fpo: Seq<int>, pco: Seq<int>)
    requires
        m.len() > 0,
        m.len() <= u32::MAX,
        0 <= o3 <= o4,
        o4 + 8 <= d.len(),
        r > 0,
        d.subrange(o3, o4) == meta_section(m),
    ensures
        walk(d, o3, r, fpo, pco) == walk(d, o4, r - 1, fpo, pco),
{
    reveal(meta_section);
    let sd = DBSection { stype: 4, count: 1, data_size: m.len() as u32, reserved: 0 };
    let sec = meta_section(m);
    lemma_section_fields(sec, sd, m);
    lemma_u32_in(d, o3, 4, sec, 0);
    lemma_u32_in(d, o3 + 8, m.len() as u32, sec, 8);
}

/// A database built from at least one non-empty part passes the loader's checks and fits its
/// tables; every section reads; the loader finds the prior configurations given (the first
/// 16, in order). Fingerprints do not make the round trip: the builder writes 48-byte records
/// and the loader reads 64-byte ones, so it finds `min(16, 48 n / 64)` records of its own layout,
/// cut from the written bytes. That mismatch is kept as the two formats stand; this lemma states
/// what it gives, not a round trip.
pub proof fn lemma_built_database_loads(
    build_id: u64,
    baseline_id: u64,
    ps: Seq<PriorConfigEntry>,
    fps: Seq<KnownFingerprintRaw>,
    m: Seq<u8>,
)
    requires
        database_fits(fps.len() as int, ps.len() as int, m.len() as int),
        fps.len() > 0 || ps.len() > 0 || m.len() > 0,
    ensures
        ({
            let d = spec_database(build_id, baseline_id, ps, fps, m);
            &&& d.len() >= 48
            &&& header_ok(d)
            &&& crc_ok(d)
            &&& !overflows_tables(d)
            &&& sections_of(d).0
            &&& sections_of(d).1.len() == if fps.len() > 0 {
                min16((48 * fps.len() as int) / 64)
            } else {
                0
            }
            &&& sections_of(d).2.len() == min16(ps.len() as int)
            &&& forall|k: int|
                0 <= k < min16(ps.len() as int) ==> pc_decoded(
                    LoadedPriorConfig { id: ps[k].id, config: ps[k].config },
                    d,
                    #[trigger] sections_of(d).2[k],
                )
        }),
{
    let body = db_body(fps, ps, m);
    let count = db_section_count(fps, ps, m);
    let crc = spec_crc32(body);
    let head = db_header(count, crc, build_id, baseline_id);
    let total = (40 + body.len() + 8) as u32;
    let d = spec_database(build_id, baseline_id, ps, fps, m);
    let fsec = fps_section(fps);
    let psec = priors_section(ps);
    let msec = meta_section(m);
    lemma_body_len(fps, ps, m);
    lemma_header_fields(count, crc, build_id, baseline_id);
    assert(d =~= head + fsec + psec + msec + le_u32(DB_FOOTER_MAGIC) + le_u32(total));
    let o1: int = 40;
    let o2: int = o1 + fsec.len();
    let o3: int = o2 + psec.len();
    let o4: int = o3 + msec.len();
    assert(o4 == d.len() - 8);
    assert(d.subrange(0, 40) =~= head);
    lemma_u32_in(d, 0, DB_MAGIC, head, 0);
    lemma_u32_in(d, 4, DB_VERSION, head, 4);
    lemma_u32_in(d, 8, count, head, 8);
    lemma_u32_in(d, 12, crc, head, 12);
    assert(d.subrange(40, d.len() - 8) =~= body);
    assert(d.subrange(o1, o2) =~= fsec);
    assert(d.subrange(o2, o3) =~= psec);
    assert(d.subrange(o3, o4) =~= msec);
    let fpo: Seq<int> = if fps.len() > 0 {
        Seq::empty() + record_offsets(o1 + 16, min16((48 * fps.len() as int) / 64), 64)
    } else {
        Seq::empty()
    };
    let pco: Seq<int> = if ps.len() > 0 {
        Seq::empty() + record_offsets(o2 + 16, min16(ps.len() as int), 36)
    } else {
        Seq::empty()
    };
    let r1: int = count as int;
    let r2: int = r1 - if fps.len() > 0 {
        1int
    } else {
        0int
    };
    let r3: int = r2 - if ps.len() > 0 {
        1int
    } else {
        0int
    };
    let r4: int = r3 - if m.len() > 0 {
        1int
    } else {
        0int
    };
    assert(r4 == 0);
    if fps.len() > 0 {
        lemma_walk_fps(d, o1, o2, r1, fps, Seq::empty(), Seq::empty());
    }
    assert(walk(d, o1, r1, Seq::empty(), Seq::empty()) == walk(d, o2, r2, fpo, Seq::empty()));
    if ps.len() > 0 {
        lemma_walk_priors(d, o2, o3, r2, ps, fpo, Seq::empty());
    }
    assert(walk(d, o2, r2, fpo, Seq::empty()) == walk(d, o3, r3, fpo, pco));
    if m.len() > 0 {
        lemma_walk_meta(d, o3, o4, r3, m, fpo, pco);
    }
    assert(walk(d, o3, r3, fpo, pco) == walk(d, o4, r4, fpo, pco));
    assert(sections_of(d) == (true, fpo, pco));
    if ps.len() > 0 {
        assert(pco =~= record_offsets(o2 + 16, min16(ps.len() as int), 36));
    }
    if fps.len() > 0 {
        assert(fpo =~= record_offsets(o1 + 16, min16((48 * fps.len() as int) / 64), 64));
    }
}

} // verus!
