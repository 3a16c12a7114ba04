//! What a blob store decides: how its objects are named, what answers a
//! `put`, what a sweep deletes, and who holds the keys. Times are inputs:
//! nanoseconds since the epoch.

use vstd::prelude::*;
use crate::canonical;
use crate::collections;
use crate::text;
use crate::canonical::{ContentHash, commit, sha256};
use crate::collections::{OrderedMap, OrderedSet};
use crate::hasher::Staged;
use crate::order::{Key, Modeled};
use crate::text::{chars_of, push_hex, push_text, text_of};

verus! {

/// What a scan found.
#[derive(Clone, Copy, Debug, PartialEq, Eq, Structural)]
pub enum ScanVerdict {
    Clean,
    Infected,
    Failed,
}

impl DeepView for ScanVerdict {
    type V = ScanVerdict;

    open spec fn deep_view(&self) -> ScanVerdict {
        *self
    }
}

impl View for ScanVerdict {
    type V = ScanVerdict;

    open spec fn view(&self) -> ScanVerdict {
        *self
    }
}

impl Modeled for ScanVerdict {
    fn dup(&self) -> (r: Self) {
        *self
    }

    fn same(&self, other: &Self) -> (b: bool) {
        *self == *other
    }
}

/// The scan of a blob. It is kept per blob, so that a blob that records
/// share is scanned once.
#[derive(Clone, Debug, PartialEq, Eq)]
pub struct BlobScan {
    pub engine: String,
    /// The version of the signatures that the verdict was given with.
    pub signatures: String,
    pub at_unix_secs: u64,
    pub verdict: ScanVerdict,
}

/// The model of [`BlobScan`].
#[verifier::ext_equal]
pub struct BlobScanModel {
    pub engine: Seq<char>,
    pub signatures: Seq<char>,
    pub at_unix_secs: u64,
    pub verdict: ScanVerdict,
}

impl DeepView for BlobScan {
    type V = BlobScanModel;

    open spec fn deep_view(&self) -> BlobScanModel {
        BlobScanModel {
            engine: self.engine.deep_view(),
            signatures: self.signatures.deep_view(),
            at_unix_secs: self.at_unix_secs,
            verdict: self.verdict.deep_view(),
        }
    }
}

impl View for BlobScan {
    type V = BlobScanModel;

    open spec fn view(&self) -> BlobScanModel {
        self.deep_view()
    }
}

impl Modeled for BlobScan {
    fn dup(&self) -> (r: Self) {
        BlobScan {
            engine: self.engine.dup(),
            signatures: self.signatures.dup(),
            at_unix_secs: self.at_unix_secs,
            verdict: self.verdict.dup(),
        }
    }

    fn same(&self, other: &Self) -> (b: bool) {
        self.engine.same(&other.engine)
            && self.signatures.same(&other.signatures)
            && self.at_unix_secs == other.at_unix_secs
            && self.verdict.same(&other.verdict)
    }
}

/// What a store says of a blob.
#[derive(Clone, Debug, PartialEq, Eq)]
pub struct BlobInfo {
    pub hash: ContentHash,
    pub byte_size: u64,
    pub content_type: String,
    pub created_at: i128,
    pub scan: Option<BlobScan>,
}

/// The model of [`BlobInfo`].
#[verifier::ext_equal]
pub struct BlobInfoModel {
    pub hash: Seq<u8>,
    pub byte_size: u64,
    pub content_type: Seq<char>,
    pub created_at: i128,
    pub scan: Option<BlobScanModel>,
}

impl DeepView for BlobInfo {
    type V = BlobInfoModel;

    open spec fn deep_view(&self) -> BlobInfoModel {
        BlobInfoModel {
            hash: self.hash.deep_view(),
            byte_size: self.byte_size,
            content_type: self.content_type.deep_view(),
            created_at: self.created_at,
            scan: self.scan.deep_view(),
        }
    }
}

impl View for BlobInfo {
    type V = BlobInfoModel;

    open spec fn view(&self) -> BlobInfoModel {
        self.deep_view()
    }
}

impl Modeled for BlobInfo {
    fn dup(&self) -> (r: Self) {
        BlobInfo {
            hash: self.hash.dup(),
            byte_size: self.byte_size,
            content_type: self.content_type.dup(),
            created_at: self.created_at,
            scan: self.scan.dup(),
        }
    }

    fn same(&self, other: &Self) -> (b: bool) {
        self.hash.same(&other.hash)
            && self.byte_size == other.byte_size
            && self.content_type.same(&other.content_type)
            && self.created_at == other.created_at
            && self.scan.same(&other.scan)
    }
}

/// What comes with the bytes of a blob.
#[derive(Clone, Debug, PartialEq, Eq)]
pub struct PutMeta {
    pub content_type: String,
    pub created_at: i128,
}

/// The model of [`PutMeta`].
#[verifier::ext_equal]
pub struct PutMetaModel {
    pub content_type: Seq<char>,
    pub created_at: i128,
}

impl DeepView for PutMeta {
    type V = PutMetaModel;

    open spec fn deep_view(&self) -> PutMetaModel {
        PutMetaModel {
            content_type: self.content_type.deep_view(),
            created_at: self.created_at,
        }
    }
}

impl View for PutMeta {
    type V = PutMetaModel;

    open spec fn view(&self) -> PutMetaModel {
        self.deep_view()
    }
}

impl Modeled for PutMeta {
    fn dup(&self) -> (r: Self) {
        PutMeta {
            content_type: self.content_type.dup(),
            created_at: self.created_at,
        }
    }

    fn same(&self, other: &Self) -> (b: bool) {
        self.content_type.same(&other.content_type)
            && self.created_at == other.created_at
    }
}

/// What a sweep did.
#[derive(Clone, Debug, PartialEq, Eq)]
pub struct SweepReport {
    pub deleted: Vec<ContentHash>,
    pub kept_live: u64,
    /// Blobs younger than the grace window.
    pub kept_young: u64,
    /// Staging objects of writes that never completed.
    pub tmp_removed: u64,
    /// Key rows without a blob.
    pub keys_removed: u64,
}

/// The model of [`SweepReport`].
#[verifier::ext_equal]
pub struct SweepReportModel {
    pub deleted: Seq<Seq<u8>>,
    pub kept_live: u64,
    pub kept_young: u64,
    pub tmp_removed: u64,
    pub keys_removed: u64,
}

impl DeepView for SweepReport {
    type V = SweepReportModel;

    open spec fn deep_view(&self) -> SweepReportModel {
        SweepReportModel {
            deleted: self.deleted.deep_view(),
            kept_live: self.kept_live,
            kept_young: self.kept_young,
            tmp_removed: self.tmp_removed,
            keys_removed: self.keys_removed,
        }
    }
}

impl View for SweepReport {
    type V = SweepReportModel;

    open spec fn view(&self) -> SweepReportModel {
        self.deep_view()
    }
}

impl Modeled for SweepReport {
    fn dup(&self) -> (r: Self) {
        SweepReport {
            deleted: self.deleted.dup(),
            kept_live: self.kept_live,
            kept_young: self.kept_young,
            tmp_removed: self.tmp_removed,
            keys_removed: self.keys_removed,
        }
    }

    fn same(&self, other: &Self) -> (b: bool) {
        self.deleted.same(&other.deleted)
            && self.kept_live == other.kept_live
            && self.kept_young == other.kept_young
            && self.tmp_removed == other.tmp_removed
            && self.keys_removed == other.keys_removed
    }
}

/// Why a keyring refuses.
#[derive(Clone, Debug, PartialEq, Eq)]
pub enum KeyringError {
    Backend(String),
    Missing(ContentHash),
    /// A concurrent write of the same content came first.
    AlreadyRegistered(ContentHash),
}

/// The model of [`KeyringError`].
#[verifier::ext_equal]
pub enum KeyringErrorModel {
    Backend(Seq<char>),
    Missing(Seq<u8>),
    AlreadyRegistered(Seq<u8>),
}

impl DeepView for KeyringError {
    type V = KeyringErrorModel;

    open spec fn deep_view(&self) -> KeyringErrorModel {
        match self {
            KeyringError::Backend(x) => KeyringErrorModel::Backend(x.deep_view()),
            KeyringError::Missing(x) => KeyringErrorModel::Missing(x.deep_view()),
            KeyringError::AlreadyRegistered(x) => KeyringErrorModel::AlreadyRegistered(x.deep_view()),
        }
    }
}

impl View for KeyringError {
    type V = KeyringErrorModel;

    open spec fn view(&self) -> KeyringErrorModel {
        self.deep_view()
    }
}

impl Modeled for KeyringError {
    fn dup(&self) -> (r: Self) {
        match self {
            KeyringError::Backend(x) => KeyringError::Backend(x.dup()),
            KeyringError::Missing(x) => KeyringError::Missing(x.dup()),
            KeyringError::AlreadyRegistered(x) => KeyringError::AlreadyRegistered(x.dup()),
        }
    }

    fn same(&self, other: &Self) -> (b: bool) {
        match (self, other) {
            (KeyringError::Backend(x), KeyringError::Backend(y)) => x.same(y),
            (KeyringError::Missing(x), KeyringError::Missing(y)) => x.same(y),
            (KeyringError::AlreadyRegistered(x), KeyringError::AlreadyRegistered(y)) => x.same(y),
            _ => false,
        }
    }
}

/// Why a store refuses, beside what its backend reports.
#[derive(Clone, Debug, PartialEq, Eq)]
pub enum FilesError {
    Keyring(KeyringError),
    NotFound(ContentHash),
    /// The address has a key and no blob: another write of the same
    /// content is under way, or died.
    PutInFlight(ContentHash),
    Encrypt(String),
    Decrypt(String),
    Corrupt(String),
}

/// The model of [`FilesError`].
#[verifier::ext_equal]
pub enum FilesErrorModel {
    Keyring(KeyringErrorModel),
    NotFound(Seq<u8>),
    PutInFlight(Seq<u8>),
    Encrypt(Seq<char>),
    Decrypt(Seq<char>),
    Corrupt(Seq<char>),
}

impl DeepView for FilesError {
    type V = FilesErrorModel;

    open spec fn deep_view(&self) -> FilesErrorModel {
        match self {
            FilesError::Keyring(x) => FilesErrorModel::Keyring(x.deep_view()),
            FilesError::NotFound(x) => FilesErrorModel::NotFound(x.deep_view()),
            FilesError::PutInFlight(x) => FilesErrorModel::PutInFlight(x.deep_view()),
            FilesError::Encrypt(x) => FilesErrorModel::Encrypt(x.deep_view()),
            FilesError::Decrypt(x) => FilesErrorModel::Decrypt(x.deep_view()),
            FilesError::Corrupt(x) => FilesErrorModel::Corrupt(x.deep_view()),
        }
    }
}

impl View for FilesError {
    type V = FilesErrorModel;

    open spec fn view(&self) -> FilesErrorModel {
        self.deep_view()
    }
}

impl Modeled for FilesError {
    fn dup(&self) -> (r: Self) {
        match self {
            FilesError::Keyring(x) => FilesError::Keyring(x.dup()),
            FilesError::NotFound(x) => FilesError::NotFound(x.dup()),
            FilesError::PutInFlight(x) => FilesError::PutInFlight(x.dup()),
            FilesError::Encrypt(x) => FilesError::Encrypt(x.dup()),
            FilesError::Decrypt(x) => FilesError::Decrypt(x.dup()),
            FilesError::Corrupt(x) => FilesError::Corrupt(x.dup()),
        }
    }

    fn same(&self, other: &Self) -> (b: bool) {
        match (self, other) {
            (FilesError::Keyring(x), FilesError::Keyring(y)) => x.same(y),
            (FilesError::NotFound(x), FilesError::NotFound(y)) => x.same(y),
            (FilesError::PutInFlight(x), FilesError::PutInFlight(y)) => x.same(y),
            (FilesError::Encrypt(x), FilesError::Encrypt(y)) => x.same(y),
            (FilesError::Decrypt(x), FilesError::Decrypt(y)) => x.same(y),
            (FilesError::Corrupt(x), FilesError::Corrupt(y)) => x.same(y),
            _ => false,
        }
    }
}

/// What a store keeps beside a blob.
#[derive(Clone, Debug, PartialEq, Eq)]
pub struct ManifestRecord {
    pub hash: String,
    pub byte_size: u64,
    pub content_type: String,
    pub created_at_unix_secs: u64,
    pub scan: Option<BlobScan>,
}

/// The model of [`ManifestRecord`].
#[verifier::ext_equal]
pub struct ManifestRecordModel {
    pub hash: Seq<char>,
    pub byte_size: u64,
    pub content_type: Seq<char>,
    pub created_at_unix_secs: u64,
    pub scan: Option<BlobScanModel>,
}

impl DeepView for ManifestRecord {
    type V = ManifestRecordModel;

    open spec fn deep_view(&self) -> ManifestRecordModel {
        ManifestRecordModel {
            hash: self.hash.deep_view(),
            byte_size: self.byte_size,
            content_type: self.content_type.deep_view(),
            created_at_unix_secs: self.created_at_unix_secs,
            scan: self.scan.deep_view(),
        }
    }
}

impl View for ManifestRecord {
    type V = ManifestRecordModel;

    open spec fn view(&self) -> ManifestRecordModel {
        self.deep_view()
    }
}

impl Modeled for ManifestRecord {
    fn dup(&self) -> (r: Self) {
        ManifestRecord {
            hash: self.hash.dup(),
            byte_size: self.byte_size,
            content_type: self.content_type.dup(),
            created_at_unix_secs: self.created_at_unix_secs,
            scan: self.scan.dup(),
        }
    }

    fn same(&self, other: &Self) -> (b: bool) {
        self.hash.same(&other.hash)
            && self.byte_size == other.byte_size
            && self.content_type.same(&other.content_type)
            && self.created_at_unix_secs == other.created_at_unix_secs
            && self.scan.same(&other.scan)
    }
}

/// Whole seconds since the epoch; none before it.
pub open spec fn unix_secs(t: int) -> int {
    if t < 0 {
        0
    } else {
        t / 1_000_000_000
    }
}

/// The time in whole seconds since the epoch. A time before the epoch
/// counts as the epoch.
pub fn unix(t: i128) -> (r: u64)
    requires
        unix_secs(t as int) <= u64::MAX,
    ensures
        r == unix_secs(t as int),
{
    if t < 0 {
        0
    } else {
        (t / 1_000_000_000) as u64
    }
}

/// The record of a blob that was just stored.
pub open spec fn new_record(hash: Seq<u8>, byte_size: u64, meta: PutMetaModel) -> ManifestRecordModel {
    ManifestRecordModel {
        hash: canonical::hash_text(hash),
        byte_size,
        content_type: meta.content_type,
        created_at_unix_secs: unix_secs(meta.created_at as int) as u64,
        scan: None,
    }
}

/// What staged bytes are stored under and with: their address, and the
/// record that counts them.
pub fn staged_record(staged: Staged, meta: PutMeta) -> (r: (ContentHash, ManifestRecord))
    requires
        staged.is_counted(),
        unix_secs(meta.created_at as int) <= u64::MAX,
    ensures
        r.0@ == canonical::sha256_digest(staged@),
        r.1@ == new_record(canonical::sha256_digest(staged@), staged@.len() as u64, meta@),
{
    let byte_size = staged.byte_size();
    let hash = staged.address();
    let record = ManifestRecord::new(&hash, byte_size, meta);
    (hash, record)
}

/// What a record says of a blob.
pub open spec fn record_info(hash: Seq<u8>, r: ManifestRecordModel) -> BlobInfoModel {
    BlobInfoModel {
        hash,
        byte_size: r.byte_size,
        content_type: r.content_type,
        created_at: (r.created_at_unix_secs * 1_000_000_000) as i128,
        scan: r.scan,
    }
}

impl ManifestRecord {
    /// The record of a blob that was just stored, in whole seconds.
    pub fn new(hash: &ContentHash, byte_size: u64, meta: PutMeta) -> (r: Self)
        requires
            unix_secs(meta.created_at as int) <= u64::MAX,
        ensures
            r@ == new_record(hash@, byte_size, meta@),
    {
        ManifestRecord {
            hash: hash.to_string(),
            byte_size,
            content_type: meta.content_type,
            created_at_unix_secs: unix(meta.created_at),
            scan: None,
        }
    }

    /// What the record says of its blob.
    pub fn info(&self, hash: &ContentHash) -> (r: BlobInfo)
        ensures
            r@ == record_info(hash@, self@),
    {
        BlobInfo {
            hash: *hash,
            byte_size: self.byte_size,
            content_type: self.content_type.dup(),
            created_at: self.created_at_unix_secs as i128 * 1_000_000_000,
            scan: self.scan.dup(),
        }
    }

    /// The record with a scan in place of the one it had.
    pub fn scanned(self, scan: BlobScan) -> (r: Self)
        ensures
            r@ == (ManifestRecordModel { scan: Some(scan@), ..self@ }),
    {
        ManifestRecord {
            hash: self.hash,
            byte_size: self.byte_size,
            content_type: self.content_type,
            created_at_unix_secs: self.created_at_unix_secs,
            scan: Some(scan),
        }
    }
}

/// The name under which a blob's objects are filed.
pub open spec fn stem_of(hash: Seq<u8>) -> Seq<char> {
    "sha256-"@ + text::hex(hash)
}

/// The name under which a blob's objects are filed: its address with a
/// dash for the colon.
pub fn stem(hash: &ContentHash) -> (r: String)
    ensures
        r@ == stem_of(hash@),
{
    let mut v: Vec<char> = Vec::new();
    push_text(&mut v, "sha256-");
    push_hex(&mut v, hash.digest.as_slice());
    assert(v@ =~= stem_of(hash@));
    text_of(&v)
}

/// Where a blob's ciphertext is stored.
pub fn blob_path(hash: &ContentHash) -> (r: String)
    ensures
        r@ == "blobs/"@ + stem_of(hash@),
{
    let mut v: Vec<char> = Vec::new();
    push_text(&mut v, "blobs/");
    let s = stem(hash);
    push_text(&mut v, s.as_str());
    assert(v@ =~= "blobs/"@ + stem_of(hash@));
    text_of(&v)
}

/// The file name of a blob's record.
pub open spec fn manifest_name(hash: Seq<u8>) -> Seq<char> {
    stem_of(hash) + ".json"@
}

/// Where a blob's record is stored.
pub fn manifest_path(hash: &ContentHash) -> (r: String)
    ensures
        r@ == "manifest/"@ + manifest_name(hash@),
{
    let mut v: Vec<char> = Vec::new();
    push_text(&mut v, "manifest/");
    let s = stem(hash);
    push_text(&mut v, s.as_str());
    push_text(&mut v, ".json");
    assert(v@ =~= "manifest/"@ + manifest_name(hash@));
    text_of(&v)
}

/// A text whose first dash is a colon.
pub open spec fn undashed(s: Seq<char>) -> Seq<char> {
    let n = text::chars_before(s, '-') as int;
    if n < s.len() {
        s.update(n, ':')
    } else {
        s
    }
}

/// What a file among the records is: no record where it does not end in
/// `.json`, else the record of the blob that it is named after.
pub open spec fn record_named(file: Seq<char>) -> Result<Option<Seq<u8>>, FilesErrorModel> {
    let n = file.len() - 5;
    if n < 0 || file.skip(n) != ".json"@ {
        Ok(None)
    } else {
        match canonical::hash_of_text(undashed(file.take(n))) {
            Some(hash) => Ok(Some(hash)),
            None => Err(
                FilesErrorModel::Corrupt("unparseable manifest name "@ + file.take(n)),
            ),
        }
    }
}

/// Which blob a file among the records is the record of.
pub fn manifest_hash(file: &str) -> (r: Result<Option<ContentHash>, FilesError>)
    ensures
        match r {
            Ok(hash) => record_named(file@) == Ok::<_, FilesErrorModel>(hash.deep_view()),
            Err(e) => record_named(file@) == Err::<Option<Seq<u8>>, _>(e@),
        },
{
    let v = chars_of(file);
    let suffix = chars_of(".json");
    proof {
        reveal_strlit(".json");
    }
    if v.len() < 5 {
        return Ok(None);
    }
    let n = v.len() - 5;
    let mut i: usize = 0;
    while i < 5
        invariant
            i <= 5,
            n == v@.len() - 5,
            n + 5 <= usize::MAX,
            v@ == file@,
            suffix@ == ".json"@,
            suffix@.len() == 5,
            forall|j: int| 0 <= j < i ==> v@[n + j] == #[trigger] suffix@[j],
        decreases 5 - i,
    {
        if v[n + i] != suffix[i] {
            proof {
                assert(file@.skip(n as int)[i as int] != ".json"@[i as int]);
            }
            return Ok(None);
        }
        i += 1;
    }
    assert(file@.skip(n as int) =~= ".json"@);
    let mut text: Vec<char> = Vec::new();
    let mut found = false;
    let mut k: usize = 0;
    let ghost name = file@.take(n as int);
    while k < n
        invariant
            k <= n <= v@.len(),
            v@ == file@,
            name == file@.take(n as int),
            text@.len() == k,
            found ==> undashed(name).take(k as int) == text@ && text::chars_before(name, '-') < k,
            !found ==> text@ == name.take(k as int) && (forall|j: int|
                0 <= j < k ==> #[trigger] name[j] != '-'),
        decreases n - k,
    {
        let c = v[k];
        assert(name[k as int] == c);
        let ghost had = text@;
        if !found && c == '-' {
            proof {
                text::chars_before_is(name, '-', k as int);
            }
            text.push(':');
            found = true;
        } else {
            text.push(c);
        }
        k += 1;
        proof {
            if found {
                assert(undashed(name).take(k as int) =~= text@);
            } else {
                assert(name.take(k as int) =~= text@);
            }
        }
    }
    proof {
        if found {
            assert(undashed(name).take(n as int) =~= undashed(name));
        } else {
            text::chars_before_is(name, '-', n as int);
            assert(name.take(n as int) =~= name);
        }
    }
    let t = text_of(&text);
    match ContentHash::from_str(t.as_str()) {
        Ok(hash) => Ok(Some(hash)),
        Err(_) => {
            let mut what: Vec<char> = Vec::new();
            push_text(&mut what, "unparseable manifest name ");
            let mut j: usize = 0;
            let ghost start = what@;
            assert(start =~= start + name.take(0));
            while j < n
                invariant
                    j <= n <= v@.len(),
                    v@ == file@,
                    name == file@.take(n as int),
                    what@ == start + name.take(j as int),
                decreases n - j,
            {
                what.push(v[j]);
                j += 1;
                assert(what@ =~= start + name.take(j as int));
            }
            assert(name.take(n as int) =~= name);
            Err(FilesError::Corrupt(text_of(&what)))
        },
    }
}

/// A record is found by its name: it is the record of the blob that it
/// was stored for.
pub proof fn record_is_found_by_name(hash: Seq<u8>)
    requires
        hash.len() == 32,
    ensures
        record_named(manifest_name(hash)) == Ok::<_, FilesErrorModel>(Some(hash)),
{
    reveal_strlit(".json");
    reveal_strlit("sha256-");
    reveal_strlit("sha256:");
    text::hex_index(hash);
    let s = stem_of(hash);
    let file = manifest_name(hash);
    let n = file.len() - 5;
    assert(file.skip(n) =~= ".json"@);
    assert(file.take(n) =~= s);
    text::chars_before_is(s, '-', 6);
    assert(undashed(s) =~= canonical::hash_text(hash));
    canonical::hash_text_reads_back(hash, s);
}


/// Where a `put` stands, once the bytes are staged and their address is
/// known.
#[derive(Clone, Copy, Debug, PartialEq, Eq, Structural)]
pub enum PutPhase {
    /// Asks whether the blob is stored already.
    Probe,
    /// Registers the key: the commit point of a `put`.
    Register,
    /// Asks whether the blob of the writer that came first is there.
    Recheck,
    /// Moves the bytes to their address and writes the record.
    Commit,
}

impl DeepView for PutPhase {
    type V = PutPhase;

    open spec fn deep_view(&self) -> PutPhase {
        *self
    }
}

impl View for PutPhase {
    type V = PutPhase;

    open spec fn view(&self) -> PutPhase {
        *self
    }
}

impl Modeled for PutPhase {
    fn dup(&self) -> (r: Self) {
        *self
    }

    fn same(&self, other: &Self) -> (b: bool) {
        *self == *other
    }
}

/// What came of a phase.
#[derive(Clone, Copy, Debug, PartialEq, Eq, Structural)]
pub enum PutReply {
    /// The blob is stored, the key registered, the blob committed.
    Yes,
    /// The blob is not stored, the address has a key already.
    No,
    /// The backend reported an error.
    Failed,
}

impl DeepView for PutReply {
    type V = PutReply;

    open spec fn deep_view(&self) -> PutReply {
        *self
    }
}

impl View for PutReply {
    type V = PutReply;

    open spec fn view(&self) -> PutReply {
        *self
    }
}

impl Modeled for PutReply {
    fn dup(&self) -> (r: Self) {
        *self
    }

    fn same(&self, other: &Self) -> (b: bool) {
        *self == *other
    }
}

/// What a `put` does next.
#[derive(Clone, Copy, Debug, PartialEq, Eq, Structural)]
pub enum PutNext {
    Go(PutPhase),
    /// The blob is stored under its address.
    Stored,
    /// Another write owns the address and has not committed.
    InFlight,
    /// The backend's error is the answer.
    Refused,
}

impl DeepView for PutNext {
    type V = PutNext;

    open spec fn deep_view(&self) -> PutNext {
        *self
    }
}

impl View for PutNext {
    type V = PutNext;

    open spec fn view(&self) -> PutNext {
        *self
    }
}

impl Modeled for PutNext {
    fn dup(&self) -> (r: Self) {
        *self
    }

    fn same(&self, other: &Self) -> (b: bool) {
        *self == *other
    }
}

/// A move of a `put`.
#[derive(Clone, Copy, Debug, PartialEq, Eq, Structural)]
pub struct PutMove {
    /// Whether the staged bytes are dropped now.
    pub discard: bool,
    /// Whether the key row and whatever stands at the address are taken
    /// back.
    pub roll_back: bool,
    pub next: PutNext,
}

impl DeepView for PutMove {
    type V = PutMove;

    open spec fn deep_view(&self) -> PutMove {
        *self
    }
}

impl View for PutMove {
    type V = PutMove;

    open spec fn view(&self) -> PutMove {
        *self
    }
}

impl Modeled for PutMove {
    fn dup(&self) -> (r: Self) {
        *self
    }

    fn same(&self, other: &Self) -> (b: bool) {
        *self == *other
    }
}

/// What a `put` does after a phase.
pub open spec fn put_after(phase: PutPhase, reply: PutReply) -> PutMove {
    let (discard, roll_back, next) = match phase {
        PutPhase::Probe => match reply {
            PutReply::Yes => (true, false, PutNext::Stored),
            PutReply::No => (false, false, PutNext::Go(PutPhase::Register)),
            PutReply::Failed => (false, false, PutNext::Refused),
        },
        PutPhase::Register => match reply {
            PutReply::Yes => (false, false, PutNext::Go(PutPhase::Commit)),
            PutReply::No => (true, false, PutNext::Go(PutPhase::Recheck)),
            PutReply::Failed => (true, false, PutNext::Refused),
        },
        PutPhase::Recheck => match reply {
            PutReply::Yes => (false, false, PutNext::Stored),
            PutReply::No => (false, false, PutNext::InFlight),
            PutReply::Failed => (false, false, PutNext::Refused),
        },
        PutPhase::Commit => match reply {
            PutReply::Yes => (true, false, PutNext::Stored),
            _ => (true, true, PutNext::Refused),
        },
    };
    PutMove { discard, roll_back, next }
}

impl PutPhase {
    /// What a `put` does after this phase.
    pub fn after(self, reply: PutReply) -> (r: PutMove)
        ensures
            r == put_after(self, reply),
    {
        let (discard, roll_back, next) = match self {
            PutPhase::Probe => match reply {
                PutReply::Yes => (true, false, PutNext::Stored),
                PutReply::No => (false, false, PutNext::Go(PutPhase::Register)),
                PutReply::Failed => (false, false, PutNext::Refused),
            },
            PutPhase::Register => match reply {
                PutReply::Yes => (false, false, PutNext::Go(PutPhase::Commit)),
                PutReply::No => (true, false, PutNext::Go(PutPhase::Recheck)),
                PutReply::Failed => (true, false, PutNext::Refused),
            },
            PutPhase::Recheck => match reply {
                PutReply::Yes => (false, false, PutNext::Stored),
                PutReply::No => (false, false, PutNext::InFlight),
                PutReply::Failed => (false, false, PutNext::Refused),
            },
            PutPhase::Commit => match reply {
                PutReply::Yes => (true, false, PutNext::Stored),
                _ => (true, true, PutNext::Refused),
            },
        };
        PutMove { discard, roll_back, next }
    }
}

/// A stored blob: the bytes that reading it yields, and the number of
/// them that its record says.
pub struct StoredBlob {
    pub bytes: Seq<u8>,
    pub byte_size: int,
}

/// What stands at an address: a key row, and a blob that can be read.
pub struct Address {
    pub key: bool,
    pub blob: Option<StoredBlob>,
}

/// Whether what stands at an address belongs there: a blob has its key,
/// its bytes have the address for their digest, and its record counts
/// them.
pub open spec fn is_sound(hash: Seq<u8>, at: Address) -> bool {
    at.blob matches Some(b) ==> at.key && canonical::sha256_digest(b.bytes) == hash && b.byte_size
        == b.bytes.len()
}

/// Whether a phase of a `put` of some bytes that got a reply can have
/// found `was` at the address and left `now`. A probe looks; a
/// registration takes a free address; a commit of a registered writer
/// stores the bytes.
pub open spec fn phase_leaves(
    phase: PutPhase,
    reply: PutReply,
    bytes: Seq<u8>,
    was: Address,
    now: Address,
) -> bool {
    match phase {
        PutPhase::Probe | PutPhase::Recheck => now == was && (reply == PutReply::Yes
            ==> was.blob is Some) && (reply == PutReply::No ==> was.blob is None),
        PutPhase::Register => now.blob == was.blob && match reply {
            PutReply::Yes => !was.key && now.key,
            PutReply::No => was.key && now.key,
            PutReply::Failed => now == was,
        },
        PutPhase::Commit => now.key == was.key && (reply == PutReply::Yes ==> now.blob == Some(
            StoredBlob { bytes, byte_size: bytes.len() as int },
        )),
    }
}

/// Whether other writers can turn one address into another between two
/// phases of a `put`. They keep it sound; and what is stored, or has its
/// key, is taken away by a deletion only, of which there is none.
pub open spec fn others_leave(hash: Seq<u8>, was: Address, now: Address) -> bool {
    &&& is_sound(hash, was) ==> is_sound(hash, now)
    &&& was.blob is Some ==> now == was
    &&& was.key ==> now.key
}

/// What a `put` comes to, from a phase on, for the replies that it gets.
pub open spec fn put_run(phase: PutPhase, replies: Seq<PutReply>) -> Option<PutNext>
    decreases replies.len(),
{
    if replies.len() == 0 {
        None
    } else {
        match put_after(phase, replies[0]).next {
            PutNext::Go(next) => put_run(next, replies.drop_first()),
            done => Some(done),
        }
    }
}

/// What a `put` of some bytes leaves at their address, from a phase on,
/// with the replies that it gets: each phase leaves what it can, other
/// writers may come between two phases, and a failed commit takes the key
/// row and the blob back.
pub open spec fn put_leaves(
    phase: PutPhase,
    replies: Seq<PutReply>,
    bytes: Seq<u8>,
    was: Address,
    now: Address,
) -> bool
    decreases replies.len(),
{
    if replies.len() == 0 {
        now == was
    } else {
        let step = put_after(phase, replies[0]);
        exists|mid: Address|
            {
                &&& #[trigger] phase_leaves(phase, replies[0], bytes, was, mid)
                &&& match step.next {
                    PutNext::Go(next) => exists|then: Address|
                        {
                            &&& #[trigger] others_leave(canonical::sha256_digest(bytes), mid, then)
                            &&& put_leaves(next, replies.drop_first(), bytes, then, now)
                        },
                    _ => if step.roll_back {
                        now == (Address { key: false, blob: None })
                    } else {
                        now == mid
                    },
                }
            }
    }
}

/// What a phase can count on: a commit comes behind this writer's own
/// registration.
spec fn is_under_way(phase: PutPhase, at: Address) -> bool {
    phase == PutPhase::Commit ==> at.key
}

proof fn success_is_readable(
    phase: PutPhase,
    replies: Seq<PutReply>,
    bytes: Seq<u8>,
    was: Address,
    now: Address,
)
    requires
        is_sound(canonical::sha256_digest(bytes), was),
        is_under_way(phase, was),
        put_leaves(phase, replies, bytes, was, now),
        put_run(phase, replies) == Some(PutNext::Stored),
    ensures
        is_sound(canonical::sha256_digest(bytes), now),
        now.blob is Some,
    decreases replies.len(),
{
    let hash = canonical::sha256_digest(bytes);
    let step = put_after(phase, replies[0]);
    let mid = choose|mid: Address|
        {
            &&& #[trigger] phase_leaves(phase, replies[0], bytes, was, mid)
            &&& match step.next {
                PutNext::Go(next) => exists|then: Address|
                    {
                        &&& #[trigger] others_leave(hash, mid, then)
                        &&& put_leaves(next, replies.drop_first(), bytes, then, now)
                    },
                _ => if step.roll_back {
                    now == (Address { key: false, blob: None })
                } else {
                    now == mid
                },
            }
        };
    if let PutNext::Go(next) = step.next {
        let then = choose|then: Address|
            {
                &&& #[trigger] others_leave(hash, mid, then)
                &&& put_leaves(next, replies.drop_first(), bytes, then, now)
            };
        assert(is_sound(hash, mid));
        success_is_readable(next, replies.drop_first(), bytes, then, now);
    }
}

/// A `put` that succeeds has stored what it was given, whatever other
/// writers did meanwhile: at the digest of the bytes stands a blob with
/// its key, reading it yields those bytes, and its record counts them.
/// Where a writer that came first stored it, the bytes are the same
/// unless they are others with the same digest.
pub proof fn success_means_readable(
    replies: Seq<PutReply>,
    bytes: Seq<u8>,
    was: Address,
    now: Address,
)
    requires
        is_sound(canonical::sha256_digest(bytes), was),
        put_leaves(PutPhase::Probe, replies, bytes, was, now),
        put_run(PutPhase::Probe, replies) == Some(PutNext::Stored),
    ensures
        now.key,
        now.blob matches Some(b) && b.byte_size == b.bytes.len() && (b.bytes == bytes || canonical::collide(
            b.bytes,
            bytes,
        )),
{
    success_is_readable(PutPhase::Probe, replies, bytes, was, now);
}

/// A bare key row is never taken for success: where the address has a
/// key and no blob, a `put` fails with the address in flight.
pub proof fn a_bare_key_row_fails_loudly(
    bytes: Seq<u8>,
    first: PutReply,
    second: PutReply,
    third: PutReply,
)
    requires
        ({
            let bare = Address { key: true, blob: None };
            &&& phase_leaves(PutPhase::Probe, first, bytes, bare, bare)
            &&& phase_leaves(PutPhase::Register, second, bytes, bare, bare)
            &&& phase_leaves(PutPhase::Recheck, third, bytes, bare, bare)
            &&& first != PutReply::Failed && second != PutReply::Failed && third != PutReply::Failed
        }),
    ensures
        put_run(PutPhase::Probe, seq![first, second, third]) == Some(PutNext::InFlight),
{
    reveal_with_fuel(put_run, 4);
    let s = seq![first, second, third];
    assert(s.drop_first() =~= seq![second, third]);
    assert(s.drop_first().drop_first() =~= seq![third]);
}

/// A second `put` of stored bytes ends at the probe: it succeeds, drops
/// what it staged and leaves the address as it was, with the one blob and
/// no key row of its own.
pub proof fn a_second_put_adds_nothing(
    replies: Seq<PutReply>,
    bytes: Seq<u8>,
    was: Address,
    now: Address,
)
    requires
        was.blob is Some,
        replies.len() > 0,
        replies[0] != PutReply::Failed,
        put_leaves(PutPhase::Probe, replies, bytes, was, now),
    ensures
        put_run(PutPhase::Probe, replies) == Some(PutNext::Stored),
        put_after(PutPhase::Probe, replies[0]).discard,
        now == was,
{
}

/// Whoever registered a key and does not commit takes the key back: every
/// failure behind the commit point rolls back, and no other does.
pub proof fn failed_commits_roll_back(phase: PutPhase, reply: PutReply)
    ensures
        put_after(phase, reply).roll_back <==> phase == PutPhase::Commit && put_after(
            phase,
            reply,
        ).next == PutNext::Refused,
{
}

/// How long ago a time was; a time to come was just now.
pub open spec fn age_at(now: int, then: int) -> int {
    if then <= now {
        now - then
    } else {
        0
    }
}

fn at_least(now: i128, then: i128, grace: u128) -> (r: bool)
    ensures
        r == (age_at(now as int, then as int) >= grace),
{
    if then > now {
        grace == 0
    } else if then >= 0 || now < 0 {
        (now - then) as u128 >= grace
    } else {
        now as u128 + (-(then + 1)) as u128 + 1 >= grace
    }
}

/// What becomes of a stored blob in a sweep.
#[derive(Clone, Copy, Debug, PartialEq, Eq, Structural)]
pub enum Fate {
    /// A root refers to it.
    Live,
    /// It is younger than the grace window.
    Young,
    Delete,
}

impl DeepView for Fate {
    type V = Fate;

    open spec fn deep_view(&self) -> Fate {
        *self
    }
}

impl View for Fate {
    type V = Fate;

    open spec fn view(&self) -> Fate {
        *self
    }
}

impl Modeled for Fate {
    fn dup(&self) -> (r: Self) {
        *self
    }

    fn same(&self, other: &Self) -> (b: bool) {
        *self == *other
    }
}

/// What becomes of a stored blob in a sweep.
pub open spec fn fate_of(
    live: Set<Seq<u8>>,
    grace: u128,
    now: int,
    hash: Seq<u8>,
    created_at: int,
) -> Fate {
    if live.contains(hash) {
        Fate::Live
    } else if age_at(now, created_at) < grace {
        Fate::Young
    } else {
        Fate::Delete
    }
}

/// A sweep under way: what is kept by the roots, the grace window in
/// nanoseconds, the time, and what was done.
#[derive(Clone, Debug, PartialEq, Eq)]
pub struct Sweep {
    pub live: OrderedSet<ContentHash>,
    pub grace: u128,
    pub now: i128,
    pub report: SweepReport,
}

/// The model of [`Sweep`].
#[verifier::ext_equal]
pub struct SweepModel {
    pub live: Set<Seq<u8>>,
    pub grace: u128,
    pub now: i128,
    pub report: SweepReportModel,
}

impl DeepView for Sweep {
    type V = SweepModel;

    open spec fn deep_view(&self) -> SweepModel {
        SweepModel {
            live: self.live.deep_view(),
            grace: self.grace,
            now: self.now,
            report: self.report.deep_view(),
        }
    }
}

impl View for Sweep {
    type V = SweepModel;

    open spec fn view(&self) -> SweepModel {
        self.deep_view()
    }
}

impl Modeled for Sweep {
    fn dup(&self) -> (r: Self) {
        Sweep {
            live: self.live.dup(),
            grace: self.grace,
            now: self.now,
            report: self.report.dup(),
        }
    }

    fn same(&self, other: &Self) -> (b: bool) {
        self.live.same(&other.live)
            && self.grace == other.grace
            && self.now == other.now
            && self.report.same(&other.report)
    }
}

/// The report of a sweep that has done nothing.
pub open spec fn empty_report() -> SweepReportModel {
    SweepReportModel {
        deleted: Seq::empty(),
        kept_live: 0,
        kept_young: 0,
        tmp_removed: 0,
        keys_removed: 0,
    }
}

impl Default for SweepReport {
    fn default() -> (r: Self)
        ensures
            r@ == empty_report(),
    {
        let r = SweepReport {
            deleted: Vec::new(),
            kept_live: 0,
            kept_young: 0,
            tmp_removed: 0,
            keys_removed: 0,
        };
        assert(r@.deleted =~= Seq::<Seq<u8>>::empty());
        r
    }
}

impl Sweep {
    pub fn new(live: OrderedSet<ContentHash>, grace: u128, now: i128) -> (r: Self)
        ensures
            r@ == (SweepModel { live: live@, grace, now, report: empty_report() }),
    {
        Sweep { live, grace, now, report: SweepReport::default() }
    }

    /// Whether a staging object is removed: one as old as the grace
    /// window can only be left over from a crash.
    pub fn staged(&mut self, modified: i128) -> (r: bool)
        requires
            old(self)@.report.tmp_removed < u64::MAX,
        ensures
            r == (age_at(old(self)@.now as int, modified as int) >= old(self)@.grace),
            final(self)@ == (SweepModel {
                report: SweepReportModel {
                    tmp_removed: if r {
                        (old(self)@.report.tmp_removed + 1) as u64
                    } else {
                        old(self)@.report.tmp_removed
                    },
                    ..old(self)@.report
                },
                ..old(self)@
            }),
    {
        let r = at_least(self.now, modified, self.grace);
        if r {
            self.report.tmp_removed = self.report.tmp_removed + 1;
        }
        r
    }

    /// Whether the roots keep a blob.
    pub fn keeps(&mut self, hash: &ContentHash) -> (r: bool)
        requires
            old(self)@.report.kept_live < u64::MAX,
        ensures
            r == old(self)@.live.contains(hash@),
            final(self)@ == (SweepModel {
                report: SweepReportModel {
                    kept_live: if r {
                        (old(self)@.report.kept_live + 1) as u64
                    } else {
                        old(self)@.report.kept_live
                    },
                    ..old(self)@.report
                },
                ..old(self)@
            }),
    {
        let r = self.live.contains(hash);
        if r {
            self.report.kept_live = self.report.kept_live + 1;
        }
        r
    }

    /// Whether a blob that no root keeps is deleted: only where it is as
    /// old as the grace window.
    pub fn due(&mut self, hash: &ContentHash, created_at: i128) -> (r: bool)
        requires
            !old(self)@.live.contains(hash@),
            old(self)@.report.kept_young < u64::MAX,
        ensures
            r == (fate_of(
                old(self)@.live,
                old(self)@.grace,
                old(self)@.now as int,
                hash@,
                created_at as int,
            ) == Fate::Delete),
            final(self)@ == (SweepModel {
                report: SweepReportModel {
                    kept_young: if r {
                        old(self)@.report.kept_young
                    } else {
                        (old(self)@.report.kept_young + 1) as u64
                    },
                    ..old(self)@.report
                },
                ..old(self)@
            }),
    {
        let r = at_least(self.now, created_at, self.grace);
        if !r {
            self.report.kept_young = self.report.kept_young + 1;
        }
        r
    }

    /// Notes that a blob was deleted.
    pub fn deleted(&mut self, hash: &ContentHash)
        ensures
            final(self)@ == (SweepModel {
                report: SweepReportModel {
                    deleted: old(self)@.report.deleted.push(hash@),
                    ..old(self)@.report
                },
                ..old(self)@
            }),
    {
        let ghost had = self@.report.deleted;
        self.report.deleted.push(*hash);
        assert(self@.report.deleted =~= had.push(hash@));
    }

    /// The time up to which a key row without a blob can only be left
    /// over from a crash; none where no time is that long ago.
    pub fn cutoff(&self) -> (r: Option<i128>)
        ensures
            r == (if self@.now - self@.grace >= i128::MIN {
                Some((self@.now - self@.grace) as i128)
            } else {
                None
            }),
    {
        let most: u128 = i128::MAX as u128;
        if self.grace <= most {
            self.now.checked_sub(self.grace as i128)
        } else if self.now < 0 {
            None
        } else {
            let rest = self.grace - most;
            if rest <= most {
                (self.now - i128::MAX).checked_sub(rest as i128)
            } else if self.now == i128::MAX {
                Some(i128::MIN)
            } else {
                None
            }
        }
    }

    /// Whether an old key row is shredded: only where no blob is stored
    /// under its address.
    pub fn orphan(&mut self, stored: bool) -> (r: bool)
        requires
            old(self)@.report.keys_removed < u64::MAX,
        ensures
            r == !stored,
            final(self)@ == (SweepModel {
                report: SweepReportModel {
                    keys_removed: if r {
                        (old(self)@.report.keys_removed + 1) as u64
                    } else {
                        old(self)@.report.keys_removed
                    },
                    ..old(self)@.report
                },
                ..old(self)@
            }),
    {
        if !stored {
            self.report.keys_removed = self.report.keys_removed + 1;
        }
        !stored
    }
}

/// A sweep spares whatever a root refers to and whatever is younger than
/// the grace window, and deletes everything else.
pub proof fn sweep_respects_roots_and_grace(
    live: Set<Seq<u8>>,
    grace: u128,
    now: int,
    hash: Seq<u8>,
    created_at: int,
)
    ensures
        fate_of(live, grace, now, hash, created_at) == Fate::Delete <==> !live.contains(hash)
            && age_at(now, created_at) >= grace,
{
}


/// A key and when it was registered.
#[derive(Clone, Debug, PartialEq, Eq)]
pub struct KeyRow {
    pub identity: String,
    pub at: i128,
}

/// The model of [`KeyRow`].
#[verifier::ext_equal]
pub struct KeyRowModel {
    pub identity: Seq<char>,
    pub at: i128,
}

impl DeepView for KeyRow {
    type V = KeyRowModel;

    open spec fn deep_view(&self) -> KeyRowModel {
        KeyRowModel {
            identity: self.identity.deep_view(),
            at: self.at,
        }
    }
}

impl View for KeyRow {
    type V = KeyRowModel;

    open spec fn view(&self) -> KeyRowModel {
        self.deep_view()
    }
}

impl Modeled for KeyRow {
    fn dup(&self) -> (r: Self) {
        KeyRow {
            identity: self.identity.dup(),
            at: self.at,
        }
    }

    fn same(&self, other: &Self) -> (b: bool) {
        self.identity.same(&other.identity)
            && self.at == other.at
    }
}

/// A keyring over a table in memory: what one over a database behaves
/// like.
#[derive(Debug, PartialEq, Eq)]
pub struct MemoryKeyring {
    keys: OrderedMap<ContentHash, KeyRow>,
}

impl View for MemoryKeyring {
    type V = Map<Seq<u8>, KeyRowModel>;

    closed spec fn view(&self) -> Map<Seq<u8>, KeyRowModel> {
        self.keys@
    }
}

/// Whether a key row is as old as a cutoff.
pub open spec fn row_before(
    keys: Map<Seq<u8>, KeyRowModel>,
    before: i128,
) -> spec_fn(Seq<u8>) -> bool {
    |h: Seq<u8>| keys[h].at <= before
}

impl Default for MemoryKeyring {
    fn default() -> (r: Self)
        ensures
            r@ == Map::<Seq<u8>, KeyRowModel>::empty(),
    {
        MemoryKeyring { keys: OrderedMap::new() }
    }
}

impl MemoryKeyring {
    /// The number of keys.
    pub fn len(&self) -> (n: usize)
        ensures
            collections::lists::<ContentHash>(collections::key_order::<ContentHash>(self@.dom()), self@.dom()),
            n == collections::key_order::<ContentHash>(self@.dom()).len(),
    {
        self.keys.len()
    }

    pub fn is_empty(&self) -> (r: bool)
        ensures
            r == (self@ == Map::<Seq<u8>, KeyRowModel>::empty()),
    {
        self.keys.is_empty()
    }

    /// Registers a key. The first one wins.
    pub fn register(&mut self, hash: &ContentHash, identity: &str, at: i128) -> (r: Result<
        (),
        KeyringError,
    >)
        ensures
            ({
                let (keys, result) = registered(
                    old(self)@,
                    hash@,
                    KeyRowModel { identity: identity@, at },
                );
                &&& final(self)@ == keys
                &&& match r {
                    Ok(_) => result is Ok,
                    Err(e) => result == Err::<(), KeyringErrorModel>(e@),
                }
            }),
    {
        if self.keys.contains_key(hash) {
            return Err(KeyringError::AlreadyRegistered(*hash));
        }
        self.keys.insert(*hash, KeyRow { identity: text_of(&chars_of(identity)), at });
        Ok(())
    }

    /// The key of a blob.
    pub fn existing_identity(&self, hash: &ContentHash) -> (r: Result<&String, KeyringError>)
        ensures
            match r {
                Ok(identity) => self@.dom().contains(hash@) && identity@ == self@[hash@].identity,
                Err(e) => !self@.dom().contains(hash@) && e@ == KeyringErrorModel::Missing(hash@),
            },
    {
        match self.keys.get(hash) {
            Some(row) => Ok(&row.identity),
            None => Err(KeyringError::Missing(*hash)),
        }
    }

    /// Forgets a key: what it encrypted can no longer be read.
    pub fn shred(&mut self, hash: &ContentHash)
        ensures
            final(self)@ == old(self)@.remove(hash@),
    {
        self.keys.remove(hash);
        assert(!old(self)@.dom().contains(hash@) ==> old(self)@.remove(hash@) =~= old(self)@);
    }

    /// The addresses whose keys were registered at or before a time, in
    /// order.
    pub fn registered_before(&self, before: i128) -> (r: Vec<ContentHash>)
        ensures
            r.deep_view() == crate::impact::kept(
                collections::key_order::<ContentHash>(self@.dom()),
                row_before(self@, before),
            ),
    {
        let n = self.keys.len();
        let ghost keys = self.keys.keys();
        let ghost keep = row_before(self@, before);
        let mut r: Vec<ContentHash> = Vec::new();
        let mut i: usize = 0;
        assert(r.deep_view() =~= Seq::<Seq<u8>>::empty());
        assert(keys.take(0) =~= Seq::<Seq<u8>>::empty());
        while i < n
            invariant
                i <= n == keys.len(),
                keys == self.keys.keys(),
                keep == row_before(self@, before),
                r.deep_view() == crate::impact::kept(keys.take(i as int), keep),
            decreases n - i,
        {
            let ghost had = r.deep_view();
            proof {
                assert(keys.take(i + 1).drop_last() =~= keys.take(i as int));
                assert(keys.take(i + 1).last() == keys[i as int]);
            }
            if self.keys.value_at(i).at <= before {
                r.push(*self.keys.key_at(i));
                assert(r.deep_view() =~= had.push(keys[i as int]));
            }
            i += 1;
        }
        assert(keys.take(n as int) =~= keys);
        r
    }
}

/// How much of an object is fetched at once.
pub const FETCH_SPAN: u64 = 4_194_304;

/// What must be fetched to read at a position of an object: nothing where
/// the position is behind the end or the buffer holds it, else a span
/// from the position on, cut off at the end.
pub open spec fn fetch_at(pos: u64, len: u64, buf_start: u64, buf_len: u64) -> Option<(u64, u64)> {
    if pos >= len || (buf_start <= pos && pos < buf_start + buf_len) {
        None
    } else if len - pos <= FETCH_SPAN {
        Some((pos, len))
    } else {
        Some((pos, (pos + FETCH_SPAN) as u64))
    }
}

/// What must be fetched to read at a position of an object.
pub fn fetch_range(pos: u64, len: u64, buf_start: u64, buf_len: u64) -> (r: Option<(u64, u64)>)
    ensures
        r == fetch_at(pos, len, buf_start, buf_len),
        r matches Some((a, b)) ==> a == pos && a < b <= len,
{
    if pos >= len || (buf_start <= pos && pos - buf_start < buf_len) {
        None
    } else if len - pos <= FETCH_SPAN {
        Some((pos, len))
    } else {
        Some((pos, pos + FETCH_SPAN))
    }
}

/// How many bytes a read takes from a buffer that holds a position.
pub fn read_len(pos: u64, buf_start: u64, buf_len: usize, out_len: usize) -> (r: (usize, usize))
    requires
        buf_start <= pos,
        pos - buf_start <= buf_len,
    ensures
        r.0 == pos - buf_start,
        r.1 == (if out_len <= buf_len - r.0 {
            out_len as int
        } else {
            buf_len - r.0
        }),
{
    let offset = (pos - buf_start) as usize;
    let held = buf_len - offset;
    if out_len <= held {
        (offset, out_len)
    } else {
        (offset, held)
    }
}

/// Where a position is counted from.
#[derive(Clone, Copy, Debug, PartialEq, Eq, Structural)]
pub enum Whence {
    Start(u64),
    End(i64),
    Current(i64),
}

impl DeepView for Whence {
    type V = Whence;

    open spec fn deep_view(&self) -> Whence {
        *self
    }
}

impl View for Whence {
    type V = Whence;

    open spec fn view(&self) -> Whence {
        *self
    }
}

impl Modeled for Whence {
    fn dup(&self) -> (r: Self) {
        *self
    }

    fn same(&self, other: &Self) -> (b: bool) {
        *self == *other
    }
}

/// The position that a seek goes to.
pub open spec fn seek_position(whence: Whence, pos: u64, len: u64) -> int {
    match whence {
        Whence::Start(n) => n as int,
        Whence::End(n) => len + n,
        Whence::Current(n) => pos + n,
    }
}

/// The position that a seek goes to; none before the start. Positions
/// wrap around.
pub fn seek_target(whence: Whence, pos: u64, len: u64) -> (r: Option<u64>)
    ensures
        r == (if seek_position(whence, pos, len) < 0 {
            None
        } else {
            Some((seek_position(whence, pos, len) % 0x1_0000_0000_0000_0000) as u64)
        }),
{
    let target: i128 = match whence {
        Whence::Start(n) => n as i128,
        Whence::End(n) => len as i128 + n as i128,
        Whence::Current(n) => pos as i128 + n as i128,
    };
    if target < 0 {
        None
    } else {
        let wide: u128 = target as u128;
        Some((wide % 0x1_0000_0000_0000_0000) as u64)
    }
}

/// How many bytes a range asks for.
pub fn range_len(start: u64, end: u64) -> (r: u64)
    ensures
        r == (if start <= end {
            end - start
        } else {
            0
        }),
{
    if start <= end {
        end - start
    } else {
        0
    }
}

/// What a registration leaves of a keyring, and whether it succeeds.
pub open spec fn registered(
    keys: Map<Seq<u8>, KeyRowModel>,
    hash: Seq<u8>,
    row: KeyRowModel,
) -> (Map<Seq<u8>, KeyRowModel>, Result<(), KeyringErrorModel>) {
    if keys.dom().contains(hash) {
        (keys, Err(KeyringErrorModel::AlreadyRegistered(hash)))
    } else {
        (keys.insert(hash, row), Ok(()))
    }
}

/// Of two registrations of an address the first wins: the second fails
/// and changes nothing, and the address keeps the key that it had after
/// the first. Once the key is shredded, the address is free again.
pub proof fn first_registration_wins(
    keys: Map<Seq<u8>, KeyRowModel>,
    hash: Seq<u8>,
    first: KeyRowModel,
    second: KeyRowModel,
)
    ensures
        ({
            let (once, r) = registered(keys, hash, first);
            &&& registered(once, hash, second) == (
                once,
                Err::<(), KeyringErrorModel>(KeyringErrorModel::AlreadyRegistered(hash)),
            )
            &&& r is Ok ==> once[hash] == first
            &&& r is Err ==> once == keys
            &&& registered(once.remove(hash), hash, second).1 is Ok
        }),
{
}

} // verus!
