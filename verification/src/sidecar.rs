//! The archive beside a stream: every blob that the stream describes,
//! under its content address, and no other. Reading it takes a step per
//! header, so that large blobs can pass by without being held.

use vstd::prelude::*;
use crate::archive;
use crate::canonical;
use crate::collections;
use crate::order;
use crate::text;
use crate::archive::{
    BLOCK, USTAR_MAX, entry_name, header, octal, padding, parse_name, parse_octal, pax_name,
    pax_record, push_zeros,
};
use crate::canonical::{ContentHash, push_bytes, same_text, sha256, utf8_bytes};
use crate::collections::OrderedMap;
use crate::order::Modeled;
use crate::text::{chars_of, digits_text, find_char, push_text, read_unsigned, text_of};
use vstd::utf8::*;

verus! {

/// Why an archive is refused.
#[derive(Clone, Debug, PartialEq, Eq)]
pub enum BundleError {
    /// The manifest declares no archive.
    NotBundled,
    /// An entry's size differs from the description of the blob.
    SizeMismatch { hash: ContentHash, described: u64, actual: u64 },
    /// The bytes do not have the address that the entry claims.
    HashMismatch { claimed: ContentHash, actual: ContentHash },
    /// An entry that the stream does not describe.
    UnknownEntry(String),
    DuplicateEntry(ContentHash),
    /// Described blobs that the archive does not hold.
    MissingEntries(Vec<ContentHash>),
    MalformedArchive(String),
}

/// The model of [`BundleError`].
#[verifier::ext_equal]
pub enum BundleErrorModel {
    NotBundled,
    SizeMismatch { hash: Seq<u8>, described: u64, actual: u64 },
    HashMismatch { claimed: Seq<u8>, actual: Seq<u8> },
    UnknownEntry(Seq<char>),
    DuplicateEntry(Seq<u8>),
    MissingEntries(Seq<Seq<u8>>),
    MalformedArchive(Seq<char>),
}

impl DeepView for BundleError {
    type V = BundleErrorModel;

    open spec fn deep_view(&self) -> BundleErrorModel {
        match self {
            BundleError::NotBundled => BundleErrorModel::NotBundled,
            BundleError::SizeMismatch { hash, described, actual } => BundleErrorModel::SizeMismatch {
                hash: hash.deep_view(),
                described: *described,
                actual: *actual,
            },
            BundleError::HashMismatch { claimed, actual } => BundleErrorModel::HashMismatch {
                claimed: claimed.deep_view(),
                actual: actual.deep_view(),
            },
            BundleError::UnknownEntry(x) => BundleErrorModel::UnknownEntry(x.deep_view()),
            BundleError::DuplicateEntry(x) => BundleErrorModel::DuplicateEntry(x.deep_view()),
            BundleError::MissingEntries(x) => BundleErrorModel::MissingEntries(x.deep_view()),
            BundleError::MalformedArchive(x) => BundleErrorModel::MalformedArchive(x.deep_view()),
        }
    }
}

impl View for BundleError {
    type V = BundleErrorModel;

    open spec fn view(&self) -> BundleErrorModel {
        self.deep_view()
    }
}

impl Modeled for BundleError {
    fn dup(&self) -> (r: Self) {
        match self {
            BundleError::NotBundled => BundleError::NotBundled,
            BundleError::SizeMismatch { hash, described, actual } => BundleError::SizeMismatch {
                hash: hash.dup(),
                described: *described,
                actual: *actual,
            },
            BundleError::HashMismatch { claimed, actual } => BundleError::HashMismatch {
                claimed: claimed.dup(),
                actual: actual.dup(),
            },
            BundleError::UnknownEntry(x) => BundleError::UnknownEntry(x.dup()),
            BundleError::DuplicateEntry(x) => BundleError::DuplicateEntry(x.dup()),
            BundleError::MissingEntries(x) => BundleError::MissingEntries(x.dup()),
            BundleError::MalformedArchive(x) => BundleError::MalformedArchive(x.dup()),
        }
    }

    fn same(&self, other: &Self) -> (b: bool) {
        match (self, other) {
            (BundleError::NotBundled, BundleError::NotBundled) => true,
            (
                BundleError::SizeMismatch { hash, described, actual },
                BundleError::SizeMismatch { hash: hash2, described: described2, actual: actual2 },
            ) => {
                hash.same(hash2)
                    && *described == *described2
                    && *actual == *actual2
            },
            (
                BundleError::HashMismatch { claimed, actual },
                BundleError::HashMismatch { claimed: claimed2, actual: actual2 },
            ) => {
                claimed.same(claimed2)
                    && actual.same(actual2)
            },
            (BundleError::UnknownEntry(x), BundleError::UnknownEntry(y)) => x.same(y),
            (BundleError::DuplicateEntry(x), BundleError::DuplicateEntry(y)) => x.same(y),
            (BundleError::MissingEntries(x), BundleError::MissingEntries(y)) => x.same(y),
            (BundleError::MalformedArchive(x), BundleError::MalformedArchive(y)) => x.same(y),
            _ => false,
        }
    }
}

/// A blob as a stream describes it.
#[derive(Clone, Debug, PartialEq, Eq)]
pub struct DescribedBlob {
    pub hash: ContentHash,
    pub byte_size: u64,
    pub content_type: String,
}

/// The model of [`DescribedBlob`].
#[verifier::ext_equal]
pub struct DescribedBlobModel {
    pub hash: Seq<u8>,
    pub byte_size: u64,
    pub content_type: Seq<char>,
}

impl DeepView for DescribedBlob {
    type V = DescribedBlobModel;

    open spec fn deep_view(&self) -> DescribedBlobModel {
        DescribedBlobModel {
            hash: self.hash.deep_view(),
            byte_size: self.byte_size,
            content_type: self.content_type.deep_view(),
        }
    }
}

impl View for DescribedBlob {
    type V = DescribedBlobModel;

    open spec fn view(&self) -> DescribedBlobModel {
        self.deep_view()
    }
}

impl Modeled for DescribedBlob {
    fn dup(&self) -> (r: Self) {
        DescribedBlob {
            hash: self.hash.dup(),
            byte_size: self.byte_size,
            content_type: self.content_type.dup(),
        }
    }

    fn same(&self, other: &Self) -> (b: bool) {
        self.hash.same(&other.hash)
            && self.byte_size == other.byte_size
            && self.content_type.same(&other.content_type)
    }
}

/// The value of a record's line, where it gives a size.
pub open spec fn size_value(line: Seq<char>) -> Option<Seq<char>> {
    let a = text::chars_before(line, ' ') as int;
    if a >= line.len() {
        None
    } else {
        let kv = line.skip(a + 1);
        let b = text::chars_before(kv, '=') as int;
        if b < kv.len() && kv.take(b) == "size"@ {
            Some(kv.skip(b + 1))
        } else {
            None
        }
    }
}

/// The size that an extended header gives, over one that was given
/// before: the last line that gives one counts. Nothing where a line
/// gives a size that is no number.
pub open spec fn size_given(s: Seq<char>, prior: Option<u64>) -> Option<Option<u64>>
    decreases s.len(),
{
    if s.len() == 0 {
        Some(prior)
    } else {
        let n = text::chars_before(s, '\n') as int;
        let next = match size_value(s.take(n)) {
            None => Some(prior),
            Some(v) => match text::unsigned_text(v) {
                Some(k) => Some(Some(k)),
                None => None,
            },
        };
        match next {
            None => None,
            Some(p) => if n < s.len() {
                size_given(s.skip(n + 1), p)
            } else {
                Some(p)
            },
        }
    }
}

/// The text that some bytes are in UTF-8. It calls
/// `String::from_utf8`, which gives the text whose encoding the bytes
/// are, and fails where the bytes are no such encoding.
#[verifier::external_body]
fn utf8_text(bytes: &[u8]) -> (r: Option<String>)
    ensures
        match r {
            Some(s) => encode_utf8(s@) == bytes@,
            None => !valid_utf8(bytes@),
        },
{
    String::from_utf8(bytes.to_vec()).ok()
}

fn line_size(v: &Vec<char>, from: usize, to: usize) -> (r: Option<(usize, usize)>)
    requires
        from <= to <= v@.len(),
    ensures
        match r {
            Some((a, b)) => {
                &&& from <= a <= b == to
                &&& size_value(v@.subrange(from as int, to as int)) == Some(
                    v@.subrange(a as int, b as int),
                )
            },
            None => size_value(v@.subrange(from as int, to as int)) is None,
        },
{
    let ghost line = v@.subrange(from as int, to as int);
    let a = find_char(v, from, to, ' ');
    if a >= to {
        return None;
    }
    let ghost kv = line.skip(a - from + 1);
    assert(kv =~= v@.subrange(a + 1, to as int));
    let b = find_char(v, a + 1, to, '=');
    if b >= to {
        return None;
    }
    let mut key: Vec<char> = Vec::new();
    let mut i: usize = a + 1;
    while i < b
        invariant
            a + 1 <= i <= b <= v@.len(),
            key@ == v@.subrange(a + 1, i as int),
        decreases b - i,
    {
        key.push(v[i]);
        i += 1;
        assert(key@ =~= v@.subrange(a + 1, i as int));
    }
    assert(kv.take(b - a - 1) =~= key@);
    assert(kv.skip(b - a) =~= v@.subrange(b + 1, to as int));
    if same_text(text_of(&key).as_str(), "size") {
        Some((b + 1, to))
    } else {
        None
    }
}

fn read_size(v: &Vec<char>, prior: Option<u64>) -> (r: Option<Option<u64>>)
    ensures
        r == size_given(v@, prior),
{
    let mut size = prior;
    let mut start: usize = 0;
    assert(v@.skip(0) =~= v@);
    while start < v.len()
        invariant
            start <= v@.len(),
            size_given(v@, prior) == size_given(v@.skip(start as int), size),
        decreases v@.len() - start,
    {
        let ghost s = v@.skip(start as int);
        let to = v.len();
        assert(s =~= v@.subrange(start as int, to as int));
        let end = find_char(v, start, to, '\n');
        assert(s.take(end - start) =~= v@.subrange(start as int, end as int));
        match line_size(v, start, end) {
            Some((a, b)) => {
                match read_unsigned(v, a, b) {
                    Some(n) => {
                        size = Some(n);
                    },
                    None => {
                        return None;
                    },
                }
            },
            None => {},
        }
        if end < to {
            assert(s.skip(end - start + 1) =~= v@.skip(end + 1));
            start = end + 1;
        } else {
            assert(v@.skip(to as int) =~= Seq::<char>::empty());
            start = to;
        }
    }
    Some(size)
}


/// The reading of an archive.
#[derive(Clone, Debug, PartialEq, Eq)]
pub struct SidecarImport {
    /// The described blobs that have not been met.
    pub expected: OrderedMap<ContentHash, DescribedBlob>,
    /// The blobs that were stored, in the archive's order.
    pub stored: Vec<ContentHash>,
    /// The size that an extended header gave for the next entry.
    pub pax_size: Option<u64>,
    /// The blob whose bytes come now.
    pub current: Option<ContentHash>,
}

/// The model of [`SidecarImport`].
#[verifier::ext_equal]
pub struct SidecarImportModel {
    pub expected: Map<Seq<u8>, DescribedBlobModel>,
    pub stored: Seq<Seq<u8>>,
    pub pax_size: Option<u64>,
    pub current: Option<Seq<u8>>,
}

impl DeepView for SidecarImport {
    type V = SidecarImportModel;

    open spec fn deep_view(&self) -> SidecarImportModel {
        SidecarImportModel {
            expected: self.expected.deep_view(),
            stored: self.stored.deep_view(),
            pax_size: self.pax_size.deep_view(),
            current: self.current.deep_view(),
        }
    }
}

impl View for SidecarImport {
    type V = SidecarImportModel;

    open spec fn view(&self) -> SidecarImportModel {
        self.deep_view()
    }
}

impl Modeled for SidecarImport {
    fn dup(&self) -> (r: Self) {
        SidecarImport {
            expected: self.expected.dup(),
            stored: self.stored.dup(),
            pax_size: self.pax_size.dup(),
            current: self.current.dup(),
        }
    }

    fn same(&self, other: &Self) -> (b: bool) {
        self.expected.same(&other.expected)
            && self.stored.same(&other.stored)
            && self.pax_size.same(&other.pax_size)
            && self.current.same(&other.current)
    }
}

/// What a header calls for.
#[derive(Clone, Debug, PartialEq, Eq)]
pub enum SidecarStep {
    /// The archive ends.
    End,
    /// An extended header of so many bytes comes next, then padding.
    Pax { size: u64 },
    /// This blob comes next, then padding.
    Blob { hash: ContentHash, byte_size: u64, content_type: String },
}

/// The model of [`SidecarStep`].
#[verifier::ext_equal]
pub enum SidecarStepModel {
    End,
    Pax { size: u64 },
    Blob { hash: Seq<u8>, byte_size: u64, content_type: Seq<char> },
}

impl DeepView for SidecarStep {
    type V = SidecarStepModel;

    open spec fn deep_view(&self) -> SidecarStepModel {
        match self {
            SidecarStep::End => SidecarStepModel::End,
            SidecarStep::Pax { size } => SidecarStepModel::Pax {
                size: *size,
            },
            SidecarStep::Blob { hash, byte_size, content_type } => SidecarStepModel::Blob {
                hash: hash.deep_view(),
                byte_size: *byte_size,
                content_type: content_type.deep_view(),
            },
        }
    }
}

impl View for SidecarStep {
    type V = SidecarStepModel;

    open spec fn view(&self) -> SidecarStepModel {
        self.deep_view()
    }
}

impl Modeled for SidecarStep {
    fn dup(&self) -> (r: Self) {
        match self {
            SidecarStep::End => SidecarStep::End,
            SidecarStep::Pax { size } => SidecarStep::Pax {
                size: *size,
            },
            SidecarStep::Blob { hash, byte_size, content_type } => SidecarStep::Blob {
                hash: hash.dup(),
                byte_size: *byte_size,
                content_type: content_type.dup(),
            },
        }
    }

    fn same(&self, other: &Self) -> (b: bool) {
        match (self, other) {
            (SidecarStep::End, SidecarStep::End) => true,
            (
                SidecarStep::Pax { size },
                SidecarStep::Pax { size: size2 },
            ) => {
                *size == *size2
            },
            (
                SidecarStep::Blob { hash, byte_size, content_type },
                SidecarStep::Blob { hash: hash2, byte_size: byte_size2, content_type: content_type2 },
            ) => {
                hash.same(hash2)
                    && *byte_size == *byte_size2
                    && content_type.same(content_type2)
            },
            _ => false,
        }
    }
}

/// The described blobs by their addresses.
pub open spec fn described_map(s: Seq<DescribedBlobModel>) -> Map<Seq<u8>, DescribedBlobModel>
    decreases s.len(),
{
    if s.len() == 0 {
        Map::empty()
    } else {
        described_map(s.drop_last()).insert(s.last().hash, s.last())
    }
}

/// The reading of an archive, before its first block.
pub open spec fn import_start(described: Seq<DescribedBlobModel>) -> SidecarImportModel {
    SidecarImportModel {
        expected: described_map(described),
        stored: Seq::empty(),
        pax_size: None,
        current: None,
    }
}

/// The address that an entry's name claims: the algorithm's tag as a
/// directory, the digest as a file. A name without a slash claims none.
pub open spec fn entry_hash(name: Seq<char>) -> Option<Seq<u8>> {
    let n = text::chars_before(name, '/') as int;
    if n < name.len() {
        canonical::hash_of_text(name.update(n, ':'))
    } else {
        None
    }
}

/// What an entry calls for, where a blob of `size` bytes stands under a
/// name.
pub open spec fn blob_step(m: SidecarImportModel, name: Seq<char>, size: u64) -> Result<
    (SidecarStepModel, SidecarImportModel),
    BundleErrorModel,
> {
    match entry_hash(name) {
        None => Err(BundleErrorModel::UnknownEntry(name)),
        Some(hash) => if !m.expected.dom().contains(hash) {
            if m.stored.contains(hash) {
                Err(BundleErrorModel::DuplicateEntry(hash))
            } else {
                Err(BundleErrorModel::UnknownEntry(name))
            }
        } else if size != m.expected[hash].byte_size {
            Err(
                BundleErrorModel::SizeMismatch {
                    hash,
                    described: m.expected[hash].byte_size,
                    actual: size,
                },
            )
        } else {
            Ok(
                (
                    SidecarStepModel::Blob {
                        hash,
                        byte_size: size,
                        content_type: m.expected[hash].content_type,
                    },
                    SidecarImportModel {
                        expected: m.expected.remove(hash),
                        pax_size: None,
                        current: Some(hash),
                        ..m
                    },
                ),
            )
        },
    }
}

/// What a block calls for, where a header is due. Only blobs and their
/// extended headers are taken: no directories, no links.
pub open spec fn block_step(m: SidecarImportModel, block: Seq<u8>) -> Result<
    (SidecarStepModel, SidecarImportModel),
    BundleErrorModel,
> {
    let name = archive::name_of(block);
    if archive::is_end(block) {
        Ok((SidecarStepModel::End, m))
    } else if name.len() == 0 {
        Err(BundleErrorModel::MalformedArchive("empty entry name"@))
    } else {
        match archive::octal_of(block.subrange(124, 136)) {
            None => Err(BundleErrorModel::MalformedArchive("bad octal field"@)),
            Some(size) => if block[156] == 0x78u8 {
                Ok((SidecarStepModel::Pax { size }, m))
            } else if block[156] == 0x30u8 || block[156] == 0u8 {
                blob_step(
                    m,
                    name,
                    match m.pax_size {
                        Some(given) => given,
                        None => size,
                    },
                )
            } else {
                Err(
                    BundleErrorModel::MalformedArchive(
                        "unsupported entry type '"@ + seq![block[156] as char] + "'"@,
                    ),
                )
            },
        }
    }
}

/// The reading after an extended header.
pub open spec fn pax_step(m: SidecarImportModel, data: Seq<u8>) -> Result<
    SidecarImportModel,
    BundleErrorModel,
> {
    if !valid_utf8(data) {
        Err(BundleErrorModel::MalformedArchive("pax header not UTF-8"@))
    } else {
        match size_given(decode_utf8(data), m.pax_size) {
            None => Err(BundleErrorModel::MalformedArchive("bad pax size"@)),
            Some(pax_size) => Ok(SidecarImportModel { pax_size, ..m }),
        }
    }
}

/// The reading after the bytes of a blob, which have a given address.
pub open spec fn stored_step(m: SidecarImportModel, actual: Seq<u8>) -> Result<
    SidecarImportModel,
    BundleErrorModel,
> {
    match m.current {
        Some(claimed) => if actual != claimed {
            Err(BundleErrorModel::HashMismatch { claimed, actual })
        } else {
            Ok(SidecarImportModel { stored: m.stored.push(claimed), current: None, ..m })
        },
        None => Ok(m),
    }
}

/// What the reading comes to at the archive's end: the stored blobs,
/// where they are all that was described.
pub open spec fn import_end(m: SidecarImportModel) -> Result<Seq<Seq<u8>>, BundleErrorModel> {
    if m.expected == Map::<Seq<u8>, DescribedBlobModel>::empty() {
        Ok(m.stored)
    } else {
        Err(BundleErrorModel::MissingEntries(collections::key_order::<ContentHash>(m.expected.dom())))
    }
}

fn hash_of_entry(name: &String) -> (r: Option<ContentHash>)
    ensures
        match r {
            Some(h) => entry_hash(name@) == Some(h@),
            None => entry_hash(name@) is None,
        },
{
    let mut v = chars_of(name.as_str());
    let to = v.len();
    let n = find_char(&v, 0, to, '/');
    assert(v@.subrange(0, to as int) =~= name@);
    if n >= to {
        return None;
    }
    v.set(n, ':');
    let text = text_of(&v);
    match ContentHash::from_str(text.as_str()) {
        Ok(h) => Some(h),
        Err(_) => None,
    }
}

fn ends_archive(block: &[u8]) -> (r: bool)
    ensures
        r == archive::is_end(block@),
{
    let mut i: usize = 0;
    while i < block.len()
        invariant
            i <= block@.len(),
            forall|j: int| 0 <= j < i ==> #[trigger] block@[j] == 0u8,
        decreases block@.len() - i,
    {
        if block[i] != 0 {
            return false;
        }
        i += 1;
    }
    true
}

fn slice_between(block: &[u8], from: usize, to: usize) -> (r: Vec<u8>)
    requires
        from <= to <= block@.len(),
    ensures
        r@ == block@.subrange(from as int, to as int),
{
    let mut r: Vec<u8> = Vec::new();
    let mut i: usize = from;
    while i < to
        invariant
            from <= i <= to <= block@.len(),
            r@ == block@.subrange(from as int, i as int),
        decreases to - i,
    {
        r.push(block[i]);
        i += 1;
        assert(r@ =~= block@.subrange(from as int, i as int));
    }
    r
}

/// A complaint about the archive itself.
pub fn malformed(what: &str) -> (r: BundleError)
    ensures
        r@ == BundleErrorModel::MalformedArchive(what@),
{
    BundleError::MalformedArchive(text_of(&chars_of(what)))
}

fn unsupported(typeflag: u8) -> (r: BundleError)
    ensures
        r@ == BundleErrorModel::MalformedArchive(
            "unsupported entry type '"@ + seq![typeflag as char] + "'"@,
        ),
{
    let mut v: Vec<char> = Vec::new();
    push_text(&mut v, "unsupported entry type '");
    v.push(typeflag as char);
    push_text(&mut v, "'");
    assert(v@ =~= "unsupported entry type '"@ + seq![typeflag as char] + "'"@);
    BundleError::MalformedArchive(text_of(&v))
}

fn held(stored: &Vec<ContentHash>, hash: &ContentHash) -> (r: bool)
    ensures
        r == stored.deep_view().contains(hash@),
{
    let ghost m = stored.deep_view();
    let mut i: usize = 0;
    while i < stored.len()
        invariant
            i <= stored@.len(),
            m == stored.deep_view(),
            forall|j: int| 0 <= j < i ==> #[trigger] m[j] != hash@,
        decreases stored@.len() - i,
    {
        assert(m[i as int] == stored@[i as int]@);
        if stored[i].same(hash) {
            assert(m.contains(m[i as int]));
            return true;
        }
        i += 1;
    }
    false
}

impl SidecarImport {
    /// Starts to read the archive of a stream: refused where the stream's
    /// manifest declares none.
    pub fn begin(bundled: bool, described: &[DescribedBlob]) -> (r: Result<Self, BundleError>)
        ensures
            match r {
                Ok(m) => bundled && m@ == import_start(order::models(described@)),
                Err(e) => !bundled && e@ == BundleErrorModel::NotBundled,
            },
    {
        if !bundled {
            return Err(BundleError::NotBundled);
        }
        let ghost all = order::models(described@);
        let mut expected: OrderedMap<ContentHash, DescribedBlob> = OrderedMap::new();
        let mut i: usize = 0;
        while i < described.len()
            invariant
                i <= described@.len(),
                all == order::models(described@),
                expected@ == described_map(all.take(i as int)),
            decreases described@.len() - i,
        {
            proof {
                assert(all.take(i + 1).drop_last() =~= all.take(i as int));
                assert(all.take(i + 1).last() == described@[i as int]@);
            }
            expected.insert(described[i].hash, described[i].dup());
            i += 1;
        }
        assert(all.take(all.len() as int) =~= all);
        let r = SidecarImport { expected, stored: Vec::new(), pax_size: None, current: None };
        assert(r@.stored =~= Seq::<Seq<u8>>::empty());
        Ok(r)
    }

    fn blob(&mut self, name: String, size: u64) -> (r: Result<SidecarStep, BundleError>)
        ensures
            match r {
                Ok(step) => blob_step(old(self)@, name@, size) == Ok::<_, BundleErrorModel>(
                    (step@, final(self)@),
                ),
                Err(e) => blob_step(old(self)@, name@, size) == Err::<
                    (SidecarStepModel, SidecarImportModel),
                    _,
                >(e@) && final(self)@ == old(self)@,
            },
    {
        let ghost before = self@;
        let hash = match hash_of_entry(&name) {
            Some(h) => h,
            None => {
                return Err(BundleError::UnknownEntry(name));
            },
        };
        let described = match self.expected.get(&hash) {
            Some(d) => d,
            None => {
                return if held(&self.stored, &hash) {
                    Err(BundleError::DuplicateEntry(hash))
                } else {
                    Err(BundleError::UnknownEntry(name))
                };
            },
        };
        if size != described.byte_size {
            return Err(
                BundleError::SizeMismatch { hash, described: described.byte_size, actual: size },
            );
        }
        let content_type = described.content_type.dup();
        self.expected.remove(&hash);
        self.pax_size = None;
        self.current = Some(hash);
        Ok(SidecarStep::Blob { hash, byte_size: size, content_type })
    }

    /// Takes the block where a header is due, and says what comes next.
    /// A refusal leaves the reading as it was.
    pub fn next(&mut self, block: &[u8]) -> (r: Result<SidecarStep, BundleError>)
        requires
            block@.len() == BLOCK,
        ensures
            match r {
                Ok(step) => block_step(old(self)@, block@) == Ok::<_, BundleErrorModel>(
                    (step@, final(self)@),
                ),
                Err(e) => block_step(old(self)@, block@) == Err::<
                    (SidecarStepModel, SidecarImportModel),
                    _,
                >(e@) && final(self)@ == old(self)@,
            },
    {
        if ends_archive(block) {
            return Ok(SidecarStep::End);
        }
        let name = match parse_name(block) {
            Some(name) => name,
            None => {
                return Err(malformed("empty entry name"));
            },
        };
        let field = slice_between(block, 124, 136);
        let header_size = match parse_octal(field.as_slice()) {
            Some(n) => n,
            None => {
                return Err(malformed("bad octal field"));
            },
        };
        let typeflag = block[156];
        if typeflag == 0x78 {
            Ok(SidecarStep::Pax { size: header_size })
        } else if typeflag == 0x30 || typeflag == 0 {
            let size = match self.pax_size {
                Some(given) => given,
                None => header_size,
            };
            self.blob(name, size)
        } else {
            Err(unsupported(typeflag))
        }
    }

    /// Takes the bytes of an extended header: the last size that it gives
    /// is that of the next entry.
    pub fn pax(&mut self, data: &[u8]) -> (r: Result<(), BundleError>)
        ensures
            match r {
                Ok(_) => pax_step(old(self)@, data@) == Ok::<_, BundleErrorModel>(final(self)@),
                Err(e) => pax_step(old(self)@, data@) == Err::<SidecarImportModel, _>(e@)
                    && final(self)@ == old(self)@,
            },
    {
        let text = match utf8_text(data) {
            Some(text) => text,
            None => {
                return Err(malformed("pax header not UTF-8"));
            },
        };
        proof {
            encode_utf8_valid_utf8(text@);
            encode_utf8_decode_utf8(text@);
        }
        let v = chars_of(text.as_str());
        match read_size(&v, self.pax_size) {
            Some(size) => {
                self.pax_size = size;
                Ok(())
            },
            None => Err(malformed("bad pax size")),
        }
    }

    /// Takes the address that the bytes of the current blob have: they
    /// count only under the address that the entry claims.
    pub fn accept(&mut self, actual: ContentHash) -> (r: Result<(), BundleError>)
        ensures
            match r {
                Ok(_) => stored_step(old(self)@, actual@) == Ok::<_, BundleErrorModel>(
                    final(self)@,
                ),
                Err(e) => stored_step(old(self)@, actual@) == Err::<SidecarImportModel, _>(e@)
                    && final(self)@ == old(self)@,
            },
    {
        match self.current {
            Some(claimed) => {
                if !actual.same(&claimed) {
                    return Err(BundleError::HashMismatch { claimed, actual });
                }
                let ghost had = self@.stored;
                self.stored.push(claimed);
                self.current = None;
                assert(self@.stored =~= had.push(claimed@));
                Ok(())
            },
            None => Ok(()),
        }
    }

    /// Ends the reading: the stored blobs in the archive's order, where
    /// none that was described is missing.
    pub fn finish(self) -> (r: Result<Vec<ContentHash>, BundleError>)
        ensures
            match r {
                Ok(stored) => import_end(self@) == Ok::<_, BundleErrorModel>(stored.deep_view()),
                Err(e) => import_end(self@) == Err::<Seq<Seq<u8>>, _>(e@),
            },
    {
        if self.expected.is_empty() {
            return Ok(self.stored);
        }
        let n = self.expected.len();
        let ghost keys = self.expected.keys();
        let mut missing: Vec<ContentHash> = Vec::new();
        let mut i: usize = 0;
        while i < n
            invariant
                i <= n == keys.len(),
                keys == self.expected.keys(),
                missing.deep_view() == keys.take(i as int),
            decreases n - i,
        {
            let ghost had = missing.deep_view();
            missing.push(*self.expected.key_at(i));
            i += 1;
            assert(missing.deep_view() =~= had.push(keys[i - 1]));
            assert(missing.deep_view() =~= keys.take(i as int));
        }
        assert(keys.take(n as int) =~= keys);
        Err(BundleError::MissingEntries(missing))
    }
}


/// The bytes of the record that gives a size.
pub open spec fn size_record(size: u64) -> Seq<u8> {
    encode_utf8(archive::pax_text("size"@, text::digits(size as nat)))
}

/// What stands before the bytes of a blob: its header, and before that,
/// where the header's field cannot spell the size, an extended header
/// that gives it.
pub open spec fn entry_head_bytes(hash: Seq<u8>, size: u64) -> Seq<u8> {
    (if size > USTAR_MAX {
        size_header_bytes(hash, size)
    } else {
        Seq::empty()
    }) + archive::header_bytes(encode_utf8(archive::entry_name_of(hash)), size, 0x30)
}

/// An extended header that gives a size.
pub open spec fn size_header_bytes(hash: Seq<u8>, size: u64) -> Seq<u8> {
    let record = size_record(size);
    archive::header_bytes(encode_utf8(archive::pax_name_of(hash)), record.len() as u64, 0x78) + record + archive::zero_bytes(
        archive::padding_len(record.len()),
    )
}

/// An entry: what stands before the bytes of a blob, the bytes, and the
/// padding up to a block.
pub open spec fn entry_bytes(hash: Seq<u8>, size: u64, content: Seq<u8>) -> Seq<u8> {
    entry_head_bytes(hash, size) + content + archive::zero_bytes(archive::padding_len(size as nat))
}

/// The entries of some blobs. Refused where a blob does not have the
/// size that it is described with.
pub open spec fn entries_written(
    described: Seq<DescribedBlobModel>,
    contents: Seq<Seq<u8>>,
) -> Result<Seq<u8>, BundleErrorModel>
    decreases described.len(),
{
    if described.len() == 0 {
        Ok(Seq::empty())
    } else {
        match entries_written(described.drop_last(), contents.drop_last()) {
            Err(e) => Err(e),
            Ok(b) => {
                let d = described.last();
                let c = contents.last();
                if c.len() != d.byte_size {
                    Err(
                        BundleErrorModel::SizeMismatch {
                            hash: d.hash,
                            described: d.byte_size,
                            actual: c.len() as u64,
                        },
                    )
                } else {
                    Ok(b + entry_bytes(d.hash, d.byte_size, c))
                }
            },
        }
    }
}

/// The archive of a stream's blobs, given with their bytes.
pub open spec fn sidecar_written(
    bundled: bool,
    described: Seq<DescribedBlobModel>,
    contents: Seq<Seq<u8>>,
) -> Result<Seq<u8>, BundleErrorModel> {
    if !bundled {
        Err(BundleErrorModel::NotBundled)
    } else {
        match entries_written(described, contents) {
            Err(e) => Err(e),
            Ok(b) => Ok(b + archive::zero_bytes(1024)),
        }
    }
}

proof fn names_fit(hash: Seq<u8>)
    requires
        hash.len() == 32,
    ensures
        is_ascii_chars(archive::entry_name_of(hash)),
        is_ascii_chars(archive::pax_name_of(hash)),
        archive::entry_name_of(hash).len() == 71,
        archive::pax_name_of(hash).len() == 75,
        !archive::entry_name_of(hash).contains('\0'),
        !archive::pax_name_of(hash).contains('\0'),
        encode_utf8(archive::entry_name_of(hash)).len() == 71,
        encode_utf8(archive::pax_name_of(hash)).len() == 75,
        entry_hash(archive::entry_name_of(hash)) == Some(hash),
{
    reveal_strlit("sha256/");
    reveal_strlit("sha256:");
    reveal_strlit("PaxHeaders/");
    text::hex_index(hash);
    let h = text::hex(hash);
    let e = archive::entry_name_of(hash);
    let p = archive::pax_name_of(hash);
    assert forall|i: int| 0 <= i < e.len() implies '\0' < #[trigger] e[i] <= '\u{7f}' by {
        if i >= 7 {
            assert(text::is_hex(h[i - 7]));
        }
    }
    assert forall|i: int| 0 <= i < p.len() implies '\0' < #[trigger] p[i] <= '\u{7f}' by {
        if i >= 11 {
            assert(text::is_hex(h[i - 11]));
        }
    }
    is_ascii_chars_encode_utf8(e);
    is_ascii_chars_encode_utf8(p);
    text::chars_before_is(e, '/', 6);
    assert(e.update(6, ':') =~= canonical::hash_text(hash));
    canonical::hash_text_reads_back(hash, e);
}

proof fn record_is_short(size: u64)
    ensures
        size_record(size).len() <= 48,
        archive::pax_text("size"@, text::digits(size as nat)).len() <= 48,
{
    reveal_strlit("size");
    let d = text::digits(size as nat);
    let key = "size"@;
    archive::digits_are_ascii(size as nat);
    is_ascii_chars_encode_utf8(d);
    is_ascii_chars_encode_utf8(key);
    u64_has_few_digits(size);
    let base = key.len() + d.len() + 3;
    archive::pax_length_is_its_own_fixed_point(key, d);
    small_has_few_digits(base);
    let len = base + text::digits(base).len();
    small_has_few_digits(len);
    small_has_few_digits(archive::pax_len(base));
}

proof fn small_has_few_digits(n: nat)
    requires
        n < 100,
    ensures
        text::digits(n).len() <= 2,
{
    reveal_with_fuel(text::digits, 3);
}

proof fn u64_has_few_digits(n: u64)
    ensures
        text::digits(n as nat).len() <= 20,
{
    reveal_with_fuel(crate::decimal::pow10, 21);
    digits_up_to(n as nat, 20);
}

proof fn digits_up_to(n: nat, k: nat)
    requires
        k > 0,
        n < crate::decimal::pow10(k),
    ensures
        text::digits(n).len() <= k,
    decreases k,
{
    reveal_with_fuel(crate::decimal::pow10, 2);
    if n >= 10 {
        digits_up_to(n / 10, (k - 1) as nat);
    }
}

/// What stands before the bytes of a blob in the archive.
pub fn entry_head(hash: &ContentHash, size: u64) -> (r: Vec<u8>)
    ensures
        r@ == entry_head_bytes(hash@, size),
{
    proof {
        names_fit(hash@);
        record_is_short(size);
    }
    let mut out: Vec<u8> = Vec::new();
    if size > USTAR_MAX {
        let value = text_of(&digits_text(size as u128));
        let record = utf8_bytes(&pax_record("size", value.as_str()));
        let name = pax_name(hash);
        let h = header(name.as_str(), record.len() as u64, 0x78);
        push_bytes(&mut out, h.as_slice());
        push_bytes(&mut out, record.as_slice());
        push_zeros(&mut out, padding(record.len() as u64));
        assert(out@ =~= size_header_bytes(hash@, size));
    }
    let name = entry_name(hash);
    let h = header(name.as_str(), size, 0x30);
    push_bytes(&mut out, h.as_slice());
    assert(out@ =~= entry_head_bytes(hash@, size));
    out
}

/// What ends an archive: two blocks of zeros.
pub fn archive_end() -> (r: Vec<u8>)
    ensures
        r@ == archive::zero_bytes(1024),
{
    let mut out: Vec<u8> = Vec::new();
    push_zeros(&mut out, 1024);
    assert(out@ =~= archive::zero_bytes(1024));
    out
}

/// Whether a blob has the size that it is described with: an entry whose
/// header gave another would lie.
pub fn check_size(described: &DescribedBlob, actual: u64) -> (r: Result<(), BundleError>)
    ensures
        match r {
            Ok(_) => actual == described.byte_size,
            Err(e) => actual != described.byte_size && e@ == (BundleErrorModel::SizeMismatch {
                hash: described.hash@,
                described: described.byte_size,
                actual,
            }),
        },
{
    if actual != described.byte_size {
        Err(
            BundleError::SizeMismatch {
                hash: described.hash,
                described: described.byte_size,
                actual,
            },
        )
    } else {
        Ok(())
    }
}

/// Writes the archive of a stream's blobs, given with their bytes. The
/// same blobs have the same archive, byte for byte.
pub fn write_sidecar(bundled: bool, described: &[DescribedBlob], contents: &[Vec<u8>]) -> (r:
    Result<Vec<u8>, BundleError>)
    requires
        contents@.len() == described@.len(),
    ensures
        match r {
            Ok(b) => sidecar_written(bundled, order::models(described@), contents.deep_view()) == Ok::<
                _,
                BundleErrorModel,
            >(b@),
            Err(e) => sidecar_written(bundled, order::models(described@), contents.deep_view()) == Err::<
                Seq<u8>,
                _,
            >(e@),
        },
{
    if !bundled {
        return Err(BundleError::NotBundled);
    }
    let ghost all = order::models(described@);
    let ghost bytes = contents.deep_view();
    let mut out: Vec<u8> = Vec::new();
    let mut i: usize = 0;
    while i < described.len()
        invariant
            i <= described@.len() == contents@.len(),
            bundled,
            all == order::models(described@),
            bytes == contents.deep_view(),
            entries_written(all.take(i as int), bytes.take(i as int)) == Ok::<_, BundleErrorModel>(
                out@,
            ),
        decreases described@.len() - i,
    {
        proof {
            assert(all.take(i + 1).drop_last() =~= all.take(i as int));
            assert(all.take(i + 1).last() == described@[i as int]@);
            assert(bytes.take(i + 1).drop_last() =~= bytes.take(i as int));
            assert(bytes.take(i + 1).last() =~= contents@[i as int]@);
        }
        let content = &contents[i];
        match check_size(&described[i], content.len() as u64) {
            Ok(_) => {},
            Err(e) => {
                proof {
                    entries_stay_refused(all, bytes, i + 1);
                }
                return Err(e);
            },
        }
        let ghost had = out@;
        let head = entry_head(&described[i].hash, described[i].byte_size);
        push_bytes(&mut out, head.as_slice());
        push_bytes(&mut out, content.as_slice());
        push_zeros(&mut out, padding(described[i].byte_size));
        assert(out@ =~= had + entry_bytes(all[i as int].hash, all[i as int].byte_size, content@));
        i += 1;
    }
    assert(all.take(all.len() as int) =~= all);
    assert(bytes.take(bytes.len() as int) =~= bytes);
    push_zeros(&mut out, 1024);
    Ok(out)
}

proof fn entries_stay_refused(
    described: Seq<DescribedBlobModel>,
    contents: Seq<Seq<u8>>,
    n: int,
)
    requires
        0 <= n <= described.len() == contents.len(),
        entries_written(described.take(n), contents.take(n)) is Err,
    ensures
        entries_written(described, contents) == entries_written(described.take(n), contents.take(n)),
    decreases described.len() - n,
{
    if n < described.len() {
        assert(described.take(n + 1).drop_last() =~= described.take(n));
        assert(contents.take(n + 1).drop_last() =~= contents.take(n));
        entries_stay_refused(described, contents, n + 1);
    } else {
        assert(described.take(n) =~= described);
        assert(contents.take(n) =~= contents);
    }
}


/// What is left of the bytes behind contents of a given size and their
/// padding.
pub open spec fn behind(bytes: Seq<u8>, size: u64) -> Seq<u8> {
    let n = size + archive::padding_len(size as nat);
    if n <= bytes.len() {
        bytes.skip(n)
    } else {
        Seq::empty()
    }
}

/// What the reading of an archive comes to, from the bytes that are
/// left. The bytes of a blob count under the address that they have.
#[verifier::opaque]
pub open spec fn imported_from(m: SidecarImportModel, bytes: Seq<u8>) -> Result<
    Seq<Seq<u8>>,
    BundleErrorModel,
>
    decreases bytes.len(),
{
    if bytes.len() < 512 {
        Err(BundleErrorModel::MalformedArchive("truncated archive"@))
    } else {
        let rest = bytes.skip(512);
        match block_step(m, bytes.take(512)) {
            Err(e) => Err(e),
            Ok((step, next)) => match step {
                SidecarStepModel::End => import_end(next),
                SidecarStepModel::Pax { size } => if rest.len() < size {
                    Err(BundleErrorModel::MalformedArchive("truncated pax header"@))
                } else if rest.len() < size + archive::padding_len(size as nat) {
                    Err(BundleErrorModel::MalformedArchive("truncated padding"@))
                } else {
                    match pax_step(next, rest.take(size as int)) {
                        Err(e) => Err(e),
                        Ok(after) => imported_from(after, behind(rest, size)),
                    }
                },
                SidecarStepModel::Blob { hash, byte_size, content_type } => {
                    let held = if byte_size <= rest.len() {
                        rest.take(byte_size as int)
                    } else {
                        rest
                    };
                    match stored_step(next, canonical::sha256_digest(held)) {
                        Err(e) => Err(e),
                        Ok(after) => if archive::padding_len(byte_size as nat) > 0 && rest.len() < byte_size
                            + archive::padding_len(byte_size as nat) {
                            Err(BundleErrorModel::MalformedArchive("truncated padding"@))
                        } else {
                            imported_from(after, behind(rest, byte_size))
                        },
                    }
                },
            },
        }
    }
}

/// What the reading of an archive comes to.
pub open spec fn sidecar_imported(
    bundled: bool,
    described: Seq<DescribedBlobModel>,
    archive: Seq<u8>,
) -> Result<Seq<Seq<u8>>, BundleErrorModel> {
    if !bundled {
        Err(BundleErrorModel::NotBundled)
    } else {
        imported_from(import_start(described), archive)
    }
}

/// Reads one entry: where the next one starts, or nothing at the end.
#[verifier::rlimit(40)]
fn import_entry(state: &mut SidecarImport, archive: &[u8], from: usize) -> (r: Result<
    Option<usize>,
    BundleError,
>)
    requires
        from <= archive@.len(),
    ensures
        match r {
            Ok(Some(next)) => {
                &&& from < next <= archive@.len()
                &&& imported_from(old(state)@, archive@.skip(from as int)) == imported_from(
                    final(state)@,
                    archive@.skip(next as int),
                )
            },
            Ok(None) => imported_from(old(state)@, archive@.skip(from as int)) == import_end(
                final(state)@,
            ),
            Err(e) => imported_from(old(state)@, archive@.skip(from as int)) == Err::<
                Seq<Seq<u8>>,
                _,
            >(e@),
        },
{
    proof {
        reveal(imported_from);
    }
    let total = archive.len();
    let ghost bytes = archive@.skip(from as int);
    if total - from < BLOCK {
        return Err(malformed("truncated archive"));
    }
    let block = slice_between(archive, from, from + BLOCK);
    let at = from + BLOCK;
    let ghost rest = bytes.skip(512);
    proof {
        assert(block@ =~= bytes.take(512));
        assert(rest =~= archive@.skip(at as int));
    }
    let step = match state.next(block.as_slice()) {
        Ok(step) => step,
        Err(e) => {
            return Err(e);
        },
    };
    let left = (total - at) as u64;
    match step {
        SidecarStep::End => Ok(None),
        SidecarStep::Pax { size } => {
            if left < size {
                return Err(malformed("truncated pax header"));
            }
            let pad = padding(size);
            let to = at + size as usize;
            if total - to < pad {
                return Err(malformed("truncated padding"));
            }
            let data = slice_between(archive, at, to);
            assert(data@ =~= rest.take(size as int));
            match state.pax(data.as_slice()) {
                Ok(_) => {},
                Err(e) => {
                    return Err(e);
                },
            }
            assert(behind(rest, size) =~= archive@.skip(to + pad));
            Ok(Some(to + pad))
        },
        SidecarStep::Blob { hash, byte_size, content_type } => {
            let whole = byte_size <= left;
            let to = if whole {
                at + byte_size as usize
            } else {
                total
            };
            let data = slice_between(archive, at, to);
            assert(data@ =~= if whole {
                rest.take(byte_size as int)
            } else {
                rest
            });
            match state.accept(address(data.as_slice())) {
                Ok(_) => {},
                Err(e) => {
                    return Err(e);
                },
            }
            let pad = padding(byte_size);
            if total - to < pad {
                return Err(malformed("truncated padding"));
            }
            assert(behind(rest, byte_size) =~= archive@.skip(to + pad));
            Ok(Some(to + pad))
        },
    }
}

fn import_from(start: SidecarImport, archive: &[u8]) -> (r: Result<Vec<ContentHash>, BundleError>)
    ensures
        match r {
            Ok(stored) => imported_from(start@, archive@) == Ok::<_, BundleErrorModel>(
                stored.deep_view(),
            ),
            Err(e) => imported_from(start@, archive@) == Err::<Seq<Seq<u8>>, _>(e@),
        },
{
    let mut state = start;
    let mut from: usize = 0;
    assert(archive@.skip(0) =~= archive@);
    loop
        invariant
            from <= archive@.len(),
            imported_from(start@, archive@) == imported_from(
                state@,
                archive@.skip(from as int),
            ),
        decreases archive@.len() - from,
    {
        match import_entry(&mut state, archive, from) {
            Ok(Some(next)) => {
                from = next;
            },
            Ok(None) => {
                return state.finish();
            },
            Err(e) => {
                return Err(e);
            },
        }
    }
}

/// The content address of some bytes.
pub fn address(bytes: &[u8]) -> (r: ContentHash)
    ensures
        r@ == canonical::sha256_digest(bytes@),
{
    let parts: [&[u8]; 1] = [bytes];
    let r = sha256(parts.as_slice());
    proof {
        let s = parts@;
        assert(s.drop_last() =~= Seq::<&[u8]>::empty());
        assert(canonical::concatenated(s.drop_last()) =~= Seq::<u8>::empty());
        assert(canonical::concatenated(s) =~= bytes@);
    }
    r
}

/// Reads the archive of a stream, held as a whole: exactly the described
/// blobs, each under the address that its bytes have. Gives the
/// addresses in the archive's order.
pub fn import_sidecar(bundled: bool, described: &[DescribedBlob], archive: &[u8]) -> (r: Result<
    Vec<ContentHash>,
    BundleError,
>)
    ensures
        match r {
            Ok(stored) => sidecar_imported(bundled, order::models(described@), archive@) == Ok::<
                _,
                BundleErrorModel,
            >(stored.deep_view()),
            Err(e) => sidecar_imported(bundled, order::models(described@), archive@) == Err::<
                Seq<Seq<u8>>,
                _,
            >(e@),
        },
{
    let state = match SidecarImport::begin(bundled, described) {
        Ok(state) => state,
        Err(e) => {
            return Err(e);
        },
    };
    import_from(state, archive)
}


/// Whether some bytes stand somewhere in an archive under an address that
/// is theirs.
pub open spec fn carries(archive: Seq<u8>, hash: Seq<u8>) -> bool {
    exists|a: int, b: int|
        0 <= a <= b <= archive.len() && hash == canonical::sha256_digest(#[trigger] archive.subrange(a, b))
}

/// Whether a list of described blobs names an address.
pub open spec fn describes(described: Seq<DescribedBlobModel>, hash: Seq<u8>) -> bool {
    exists|i: int| 0 <= i < described.len() && (#[trigger] described[i]).hash == hash
}

/// Whether every described blob is either stored or still expected.
spec fn accounted(m: SidecarImportModel, all: Set<Seq<u8>>) -> bool {
    &&& m.stored.no_duplicates()
    &&& forall|h: Seq<u8>|
        #![trigger m.expected.dom().contains(h)]
        #![trigger m.stored.contains(h)]
        all.contains(h) <==> (m.stored.contains(h) || m.expected.dom().contains(h))
    &&& forall|h: Seq<u8>| #[trigger]
        m.expected.dom().contains(h) ==> !m.stored.contains(h)
}

proof fn carries_behind(bytes: Seq<u8>, n: int, hash: Seq<u8>)
    requires
        0 <= n <= bytes.len(),
        carries(bytes.skip(n), hash),
    ensures
        carries(bytes, hash),
{
    let rest = bytes.skip(n);
    let (a, b) = choose|a: int, b: int|
        0 <= a <= b <= rest.len() && hash == canonical::sha256_digest(#[trigger] rest.subrange(a, b));
    assert(rest.subrange(a, b) =~= bytes.subrange(n + a, n + b));
}

proof fn import_accounts(m: SidecarImportModel, bytes: Seq<u8>, all: Set<Seq<u8>>)
    requires
        accounted(m, all),
    ensures
        imported_from(m, bytes) matches Ok(stored) ==> {
            &&& stored.no_duplicates()
            &&& forall|h: Seq<u8>| #[trigger] stored.contains(h) <==> all.contains(h)
            &&& forall|h: Seq<u8>| #[trigger]
                stored.contains(h) ==> m.stored.contains(h) || carries(bytes, h)
        },
    decreases bytes.len(),
{
    reveal(imported_from);
    if imported_from(m, bytes) is Ok {
        let stored = imported_from(m, bytes)->Ok_0;
        let rest = bytes.skip(512);
        let (step, next) = block_step(m, bytes.take(512))->Ok_0;
        match step {
            SidecarStepModel::End => {
                assert(next == m);
                assert forall|h: Seq<u8>| #[trigger] stored.contains(h) <==> all.contains(h) by {
                    assert(!m.expected.dom().contains(h));
                }
            },
            SidecarStepModel::Pax { size } => {
                let after = pax_step(next, rest.take(size as int))->Ok_0;
                let n = size + archive::padding_len(size as nat);
                import_accounts(after, behind(rest, size), all);
                assert(behind(rest, size) =~= bytes.skip(512 + n));
                assert forall|h: Seq<u8>| #[trigger] stored.contains(h) implies m.stored.contains(
                    h,
                ) || carries(bytes, h) by {
                    if !m.stored.contains(h) {
                        carries_behind(bytes, 512 + n, h);
                    }
                }
            },
            SidecarStepModel::Blob { hash, byte_size, content_type } => {
                let to = if byte_size <= rest.len() {
                    byte_size as int
                } else {
                    rest.len() as int
                };
                let held = if byte_size <= rest.len() {
                    rest.take(byte_size as int)
                } else {
                    rest
                };
                assert(held =~= bytes.subrange(512, 512 + to));
                let after = stored_step(next, canonical::sha256_digest(held))->Ok_0;
                assert(after.stored == m.stored.push(hash));
                assert forall|h: Seq<u8>| #[trigger]
                    after.stored.contains(h) <==> m.stored.contains(h) || h == hash by {
                    if m.stored.contains(h) {
                        let i = m.stored.index_of(h);
                        assert(after.stored[i] == h);
                    }
                    if h == hash {
                        assert(after.stored[m.stored.len() as int] == h);
                    }
                }
                assert(after.stored.no_duplicates()) by {
                    assert(m.expected.dom().contains(hash));
                    assert forall|i: int, j: int|
                        0 <= i < after.stored.len() && 0 <= j < after.stored.len() && i
                            != j implies after.stored[i] != after.stored[j] by {
                        if i < m.stored.len() {
                            assert(m.stored.contains(m.stored[i]));
                        }
                        if j < m.stored.len() {
                            assert(m.stored.contains(m.stored[j]));
                        }
                    }
                }
                assert(accounted(after, all)) by {
                    assert forall|h: Seq<u8>| #[trigger]
                        after.expected.dom().contains(h) implies !after.stored.contains(h) by {
                        assert(m.expected.dom().contains(h));
                    }
                    assert forall|h: Seq<u8>|
                        all.contains(h) <==> (after.stored.contains(h)
                            || #[trigger] after.expected.dom().contains(h)) by {
                        assert(after.expected.dom().contains(h) <==> m.expected.dom().contains(h)
                            && h != hash);
                        assert(m.expected.dom().contains(hash));
                    }
                }
                let left = behind(rest, byte_size);
                import_accounts(after, left, all);
                let n = byte_size + archive::padding_len(byte_size as nat);
                let k = if n <= rest.len() {
                    512 + n
                } else {
                    bytes.len() as int
                };
                assert(left =~= bytes.skip(k));
                assert forall|h: Seq<u8>| #[trigger] stored.contains(h) implies m.stored.contains(
                    h,
                ) || carries(bytes, h) by {
                    if !m.stored.contains(h) {
                        if h == hash {
                            assert(canonical::sha256_digest(bytes.subrange(512, 512 + to)) == h);
                        } else {
                            assert(!after.stored.contains(h));
                            carries_behind(bytes, k, h);
                        }
                    }
                }
            },
        }
    }
}

proof fn described_map_has(s: Seq<DescribedBlobModel>, hash: Seq<u8>)
    ensures
        described_map(s).dom().contains(hash) <==> describes(s, hash),
    decreases s.len(),
{
    if s.len() > 0 {
        let init = s.drop_last();
        described_map_has(init, hash);
        if describes(init, hash) {
            let i = choose|i: int| 0 <= i < init.len() && (#[trigger] init[i]).hash == hash;
            assert(s[i].hash == hash);
        }
        if s.last().hash == hash {
            assert(s[s.len() - 1].hash == hash);
        }
        if describes(s, hash) && s.last().hash != hash {
            let i = choose|i: int| 0 <= i < s.len() && (#[trigger] s[i]).hash == hash;
            assert(init[i].hash == hash);
        }
    }
}

/// An archive is read only as a whole: it stores every blob that the
/// stream describes, each once, and no other, and each is carried by the
/// archive's own bytes.
pub proof fn imported_set_is_exact(
    bundled: bool,
    described: Seq<DescribedBlobModel>,
    archive: Seq<u8>,
)
    ensures
        sidecar_imported(bundled, described, archive) matches Ok(stored) ==> {
            &&& stored.no_duplicates()
            &&& forall|h: Seq<u8>| #[trigger] stored.contains(h) <==> describes(described, h)
            &&& forall|h: Seq<u8>| #[trigger] stored.contains(h) ==> carries(archive, h)
        },
{
    let m = import_start(described);
    let all = m.expected.dom();
    assert(accounted(m, all));
    import_accounts(m, archive, all);
    assert forall|h: Seq<u8>| all.contains(h) <==> describes(described, h) by {
        described_map_has(described, h);
    }
}


proof fn size_text_is_read(size: u64, prior: Option<u64>)
    ensures
        size_given(archive::pax_text("size"@, text::digits(size as nat)), prior) == Some(Some(size)),
{
    reveal_strlit("size");
    let key = "size"@;
    let v = text::digits(size as nat);
    let base = encode_utf8(key).len() + encode_utf8(v).len() + 3;
    let d = text::digits(archive::pax_len(base));
    let text = archive::pax_text(key, v);
    text::digits_spell(size as nat);
    text::digits_spell(archive::pax_len(base));
    let n = text.len() - 1;
    assert forall|i: int| 0 <= i < n implies #[trigger] text[i] != '\n' by {
        if i < d.len() {
            assert(text::is_digit(d[i]));
        } else if i >= d.len() + 6 {
            assert(text::is_digit(v[i - d.len() - 6]));
        }
    }
    text::chars_before_is(text, '\n', n);
    let line = text.take(n);
    assert forall|i: int| 0 <= i < d.len() implies #[trigger] line[i] != ' ' by {
        assert(text::is_digit(d[i]));
    }
    assert(line[d.len() as int] == ' ');
    text::chars_before_is(line, ' ', d.len() as int);
    let kv = line.skip(d.len() as int + 1);
    assert(kv =~= key + seq!['='] + v);
    text::chars_before_is(kv, '=', 4);
    assert(kv.take(4) =~= key);
    assert(kv.skip(5) =~= v);
    assert(text::is_digit(v[0]));
    assert(text.skip(n + 1) =~= Seq::<char>::empty());
    assert(size_given(text.skip(n + 1), Some(size)) == Some(Some(size)));
}

proof fn size_header_is_read(m: SidecarImportModel, hash: Seq<u8>, size: u64, tail: Seq<u8>)
    requires
        hash.len() == 32,
    ensures
        imported_from(m, size_header_bytes(hash, size) + tail) == imported_from(
            SidecarImportModel { pax_size: Some(size), ..m },
            tail,
        ),
{
    reveal(imported_from);
    names_fit(hash);
    record_is_short(size);
    let record = size_record(size);
    let text = archive::pax_text("size"@, text::digits(size as nat));
    let len = record.len() as u64;
    archive::header_reads_back(archive::pax_name_of(hash), len, 0x78);
    let h = archive::header_bytes(encode_utf8(archive::pax_name_of(hash)), len, 0x78);
    let bytes = size_header_bytes(hash, size) + tail;
    let rest = bytes.skip(512);
    assert(bytes.take(512) =~= h);
    assert(rest.take(len as int) =~= record);
    encode_utf8_valid_utf8(text);
    encode_utf8_decode_utf8(text);
    size_text_is_read(size, m.pax_size);
    assert(behind(rest, len) =~= tail);
    assert(block_step(m, h) == Ok::<_, BundleErrorModel>((SidecarStepModel::Pax { size: len }, m)));
    assert(pax_step(m, record) == Ok::<_, BundleErrorModel>(
        SidecarImportModel { pax_size: Some(size), ..m },
    ));
}

/// The reading after a blob's entry.
spec fn after_entry(m: SidecarImportModel, hash: Seq<u8>) -> SidecarImportModel {
    SidecarImportModel {
        expected: m.expected.remove(hash),
        stored: m.stored.push(hash),
        pax_size: None,
        current: None,
    }
}

proof fn blob_is_read(
    m: SidecarImportModel,
    hash: Seq<u8>,
    size: u64,
    content: Seq<u8>,
    tail: Seq<u8>,
)
    requires
        hash.len() == 32,
        m.expected.dom().contains(hash),
        m.expected[hash].byte_size == size,
        m.pax_size == (if size > USTAR_MAX {
            Some(size)
        } else {
            None
        }),
        content.len() == size,
        canonical::sha256_digest(content) == hash,
    ensures
        imported_from(
            m,
            archive::header_bytes(encode_utf8(archive::entry_name_of(hash)), size, 0x30) + content + archive::zero_bytes(
                archive::padding_len(size as nat),
            ) + tail,
        ) == imported_from(after_entry(m, hash), tail),
{
    reveal(imported_from);
    names_fit(hash);
    let name = archive::entry_name_of(hash);
    archive::header_reads_back(name, size, 0x30);
    let h = archive::header_bytes(encode_utf8(name), size, 0x30);
    let bytes = h + content + archive::zero_bytes(archive::padding_len(size as nat)) + tail;
    let rest = bytes.skip(512);
    assert(bytes.take(512) =~= h);
    assert(rest.take(size as int) =~= content);
    assert(behind(rest, size) =~= tail);
    let step = SidecarStepModel::Blob {
        hash,
        byte_size: size,
        content_type: m.expected[hash].content_type,
    };
    let next = SidecarImportModel {
        expected: m.expected.remove(hash),
        pax_size: None,
        current: Some(hash),
        ..m
    };
    assert(block_step(m, h) == Ok::<_, BundleErrorModel>((step, next)));
    assert(stored_step(next, hash) == Ok::<_, BundleErrorModel>(after_entry(m, hash)));
}

proof fn entry_is_read(
    m: SidecarImportModel,
    hash: Seq<u8>,
    size: u64,
    content: Seq<u8>,
    tail: Seq<u8>,
)
    requires
        hash.len() == 32,
        m.expected.dom().contains(hash),
        m.expected[hash].byte_size == size,
        m.pax_size is None,
        content.len() == size,
        canonical::sha256_digest(content) == hash,
    ensures
        imported_from(m, entry_bytes(hash, size, content) + tail) == imported_from(
            after_entry(m, hash),
            tail,
        ),
{
    let body = archive::header_bytes(encode_utf8(archive::entry_name_of(hash)), size, 0x30) + content + archive::zero_bytes(
        archive::padding_len(size as nat),
    ) + tail;
    if size > USTAR_MAX {
        assert(entry_bytes(hash, size, content) + tail =~= size_header_bytes(hash, size) + body);
        size_header_is_read(m, hash, size, body);
        let given = SidecarImportModel { pax_size: Some(size), ..m };
        blob_is_read(given, hash, size, content, tail);
        assert(after_entry(given, hash) == after_entry(m, hash));
    } else {
        assert(entry_bytes(hash, size, content) + tail =~= body);
        blob_is_read(m, hash, size, content, tail);
    }
}

/// The addresses of described blobs.
pub open spec fn hashes(s: Seq<DescribedBlobModel>) -> Seq<Seq<u8>> {
    Seq::new(s.len(), |i: int| s[i].hash)
}

proof fn described_map_at(s: Seq<DescribedBlobModel>, i: int)
    requires
        hashes(s).no_duplicates(),
        0 <= i < s.len(),
    ensures
        described_map(s).dom().contains(s[i].hash),
        described_map(s)[s[i].hash] == s[i],
    decreases s.len(),
{
    let init = s.drop_last();
    if i < s.len() - 1 {
        assert forall|a: int, b: int|
            0 <= a < init.len() && 0 <= b < init.len() && a != b implies hashes(init)[a] != hashes(
            init,
        )[b] by {
            assert(hashes(s)[a] != hashes(s)[b]);
        }
        described_map_at(init, i);
        assert(init[i] == s[i]);
        assert(hashes(s)[i] != hashes(s)[s.len() - 1]);
    }
}

/// The reading of an archive behind the entries of the first `n` blobs.
spec fn read_up_to(described: Seq<DescribedBlobModel>, n: int) -> SidecarImportModel {
    SidecarImportModel {
        expected: described_map(described).remove_keys(hashes(described.take(n)).to_set()),
        stored: hashes(described.take(n)),
        pax_size: None,
        current: None,
    }
}

proof fn next_is_expected(described: Seq<DescribedBlobModel>, n: int)
    requires
        0 < n <= described.len(),
        hashes(described).no_duplicates(),
    ensures
        ({
            let m = read_up_to(described, n - 1);
            let d = described[n - 1];
            &&& m.expected.dom().contains(d.hash)
            &&& m.expected[d.hash] == d
            &&& after_entry(m, d.hash) == read_up_to(described, n)
        }),
{
    let m = read_up_to(described, n - 1);
    let d = described[n - 1];
    described_map_at(described, n - 1);
    let before = hashes(described.take(n - 1));
    let now = hashes(described.take(n));
    assert(now =~= before.push(d.hash));
    assert(!before.contains(d.hash)) by {
        if before.contains(d.hash) {
            let j = before.index_of(d.hash);
            assert(hashes(described)[j] != hashes(described)[n - 1]);
        }
    }
    assert forall|h: Seq<u8>| #[trigger]
        now.to_set().contains(h) <==> before.to_set().contains(h) || h == d.hash by {
        if before.contains(h) {
            assert(now[before.index_of(h)] == h);
        }
        if h == d.hash {
            assert(now[n - 1] == h);
        }
        if now.contains(h) && h != d.hash {
            assert(before[now.index_of(h)] == h);
        }
    }
    assert(after_entry(m, d.hash).expected =~= read_up_to(described, n).expected);
}

proof fn entries_are_read(
    described: Seq<DescribedBlobModel>,
    contents: Seq<Seq<u8>>,
    n: int,
    tail: Seq<u8>,
)
    requires
        0 <= n <= described.len() == contents.len(),
        hashes(described).no_duplicates(),
        forall|i: int|
            0 <= i < described.len() ==> (#[trigger] described[i]).hash.len() == 32
                && canonical::sha256_digest(contents[i]) == described[i].hash,
        entries_written(described.take(n), contents.take(n)) is Ok,
    ensures
        imported_from(
            import_start(described),
            entries_written(described.take(n), contents.take(n))->Ok_0 + tail,
        ) == imported_from(read_up_to(described, n), tail),
    decreases n,
{
    let ds = described.take(n);
    let cs = contents.take(n);
    let written = entries_written(ds, cs)->Ok_0;
    let map = described_map(described);
    if n == 0 {
        assert(written + tail =~= tail);
        assert(map.remove_keys(hashes(ds).to_set()) =~= map);
        assert(hashes(ds) =~= Seq::<Seq<u8>>::empty());
    } else {
        assert(ds.drop_last() =~= described.take(n - 1));
        assert(cs.drop_last() =~= contents.take(n - 1));
        let d = described[n - 1];
        let c = contents[n - 1];
        assert(ds.last() == d && cs.last() == c);
        let head = entries_written(described.take(n - 1), contents.take(n - 1))->Ok_0;
        let entry = entry_bytes(d.hash, d.byte_size, c);
        assert(written + tail =~= head + (entry + tail));
        entries_are_read(described, contents, n - 1, entry + tail);
        next_is_expected(described, n);
        entry_is_read(read_up_to(described, n - 1), d.hash, d.byte_size, c, tail);
    }
}

/// What was written is read: the archive of a stream's blobs, whose bytes
/// have the described addresses, is read back as a whole, in order.
pub proof fn written_sidecar_imports(
    described: Seq<DescribedBlobModel>,
    contents: Seq<Seq<u8>>,
)
    requires
        described.len() == contents.len(),
        hashes(described).no_duplicates(),
        forall|i: int|
            0 <= i < described.len() ==> (#[trigger] described[i]).hash.len() == 32
                && canonical::sha256_digest(contents[i]) == described[i].hash,
    ensures
        sidecar_written(true, described, contents) matches Ok(archive) ==> sidecar_imported(
            true,
            described,
            archive,
        ) == Ok::<_, BundleErrorModel>(hashes(described)),
{
    if sidecar_written(true, described, contents) is Ok {
        let n = described.len() as int;
        let end = archive::zero_bytes(1024);
        assert(described.take(n) =~= described);
        assert(contents.take(n) =~= contents);
        entries_are_read(described, contents, n, end);
        let m = read_up_to(described, n);
        assert(archive::is_end(end.take(512)));
        assert(m.expected =~= Map::<Seq<u8>, DescribedBlobModel>::empty()) by {
            assert forall|h: Seq<u8>| described_map(described).dom().contains(h) implies hashes(
                described,
            ).to_set().contains(h) by {
                described_map_has(described, h);
                let i = choose|i: int|
                    0 <= i < described.len() && (#[trigger] described[i]).hash == h;
                assert(hashes(described)[i] == h);
            }
        }
        assert(imported_from(m, end) == import_end(m)) by {
            reveal(imported_from);
        }
    }
}

/// The writing succeeds exactly where every blob has the size that it is
/// described with.
pub proof fn sizes_decide_the_writing(
    described: Seq<DescribedBlobModel>,
    contents: Seq<Seq<u8>>,
)
    requires
        described.len() == contents.len(),
    ensures
        sidecar_written(true, described, contents) is Ok <==> forall|i: int|
            0 <= i < described.len() ==> (#[trigger] described[i]).byte_size == contents[i].len(),
    decreases described.len(),
{
    if described.len() > 0 {
        let ds = described.drop_last();
        let cs = contents.drop_last();
        sizes_decide_the_writing(ds, cs);
        let last = described.len() - 1;
        if forall|i: int|
            0 <= i < described.len() ==> (#[trigger] described[i]).byte_size == contents[i].len() {
            assert forall|i: int| 0 <= i < ds.len() implies (#[trigger] ds[i]).byte_size
                == cs[i].len() by {
                assert(described[i].byte_size == contents[i].len());
            }
            assert(described[last].byte_size == contents[last].len());
        }
        if sidecar_written(true, described, contents) is Ok {
            assert forall|i: int| 0 <= i < described.len() implies (#[trigger] described[
                i]).byte_size == contents[i].len() by {
                if i < last {
                    assert(ds[i].byte_size == cs[i].len());
                }
            }
        }
    }
}

} // verus!
