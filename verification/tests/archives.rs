//! The archive beside a stream.

use varve::archive::{
    header, octal, padding, parse_name, parse_octal, pax_record, BLOCK, USTAR_MAX,
};
use varve::bundle::{described_blobs, surface_line, surfaces, Line, Surface};
use varve::bundle::{block_defaults, block_defaults_line, BlockDefaults};
use varve::canonical::{hash_plain, CanonicalValue, ContentHash};
use varve::schema::BlockRef;
use varve::sidecar::{
    address, archive_end, entry_head, import_sidecar, write_sidecar, BundleError, DescribedBlob,
    SidecarImport, SidecarStep,
};
use varve::{BlockId, RevisionId, SurfaceId};

fn blob(content: &[u8]) -> DescribedBlob {
    DescribedBlob {
        hash: address(content),
        byte_size: content.len() as u64,
        content_type: "text/plain".to_string(),
    }
}

fn sorted(mut contents: Vec<Vec<u8>>) -> (Vec<DescribedBlob>, Vec<Vec<u8>>) {
    contents.sort_by_key(|c| address(c).digest);
    (contents.iter().map(|c| blob(c)).collect(), contents)
}

#[test]
fn pax_record_length_is_its_own_fixed_point() {
    for value in ["0", "8589934592", &"9".repeat(90)] {
        let record = pax_record("size", value);
        let (len, _) = record.split_once(' ').unwrap();
        assert_eq!(len.parse::<usize>().unwrap(), record.len(), "{record}");
    }
}

#[test]
fn octal_fields_round_trip() {
    for value in [0u64, 1, 0o644, USTAR_MAX] {
        let mut field = [0u8; 12];
        octal(&mut field, value);
        assert_eq!(parse_octal(&field).unwrap(), value);
    }
    let mut field = [0u8; 8];
    octal(&mut field, 0o644);
    assert_eq!(parse_octal(&field).unwrap(), 0o644);
    // Space-padded octal of historic writers: tolerated on read.
    let mut field = [0u8; 12];
    field[..7].copy_from_slice(b"  644 \0");
    assert_eq!(parse_octal(&field).unwrap(), 0o644);
    assert!(parse_octal(b"        \0   ").is_none());
}

#[test]
fn header_checksum_verifies() {
    let h = header("sha256/aa", 5, b'0');
    assert_eq!(h.len(), BLOCK);
    let mut copy = h.clone();
    copy[148..156].copy_from_slice(b"        ");
    let sum: u64 = copy.iter().map(|b| u64::from(*b)).sum();
    assert_eq!(parse_octal(&h[148..156]).unwrap(), sum);
    assert_eq!(parse_name(&h).unwrap(), "sha256/aa");
    assert_eq!(&h[257..265], b"ustar\x0000");
}

#[test]
fn pax_size_records_drive_the_read() {
    let content = b"hello";
    let described = vec![blob(content)];
    let name = varve::archive::entry_name(&described[0].hash);
    let record = pax_record("size", &content.len().to_string());
    let mut tar: Vec<u8> = Vec::new();
    tar.extend_from_slice(&header(
        &format!("PaxHeaders/{}", &name[7..]),
        record.len() as u64,
        b'x',
    ));
    tar.extend_from_slice(record.as_bytes());
    tar.extend_from_slice(&vec![0u8; BLOCK - record.len() % BLOCK]);
    // The header's own size lies.
    tar.extend_from_slice(&header(&name, 0, b'0'));
    tar.extend_from_slice(content);
    tar.extend_from_slice(&vec![0u8; BLOCK - content.len()]);
    tar.extend_from_slice(&[0u8; 2 * BLOCK]);
    assert_eq!(
        import_sidecar(true, &described, &tar),
        Ok(vec![described[0].hash])
    );
}

#[test]
fn the_sidecar_is_deterministic() {
    let (described, contents) = sorted(vec![b"attachment".to_vec(), vec![7u8; 1000], vec![]]);
    let once = write_sidecar(true, &described, &contents).unwrap();
    let again = write_sidecar(true, &described, &contents).unwrap();
    assert_eq!(once, again);
    assert_eq!(once.len() % BLOCK, 0);
    assert!(once.ends_with(&archive_end()));
}

#[test]
fn what_was_written_is_imported() {
    let (described, contents) = sorted(vec![b"one".to_vec(), vec![1u8; 512], vec![2u8; 513]]);
    let archive = write_sidecar(true, &described, &contents).unwrap();
    let hashes: Vec<ContentHash> = described.iter().map(|d| d.hash).collect();
    assert_eq!(import_sidecar(true, &described, &archive), Ok(hashes));
}

#[test]
fn import_enforces_the_exact_described_set() {
    let (described, contents) = sorted(vec![b"first".to_vec(), b"second".to_vec()]);
    let archive = write_sidecar(true, &described, &contents).unwrap();
    // A blob that the archive does not hold.
    let mut more = described.clone();
    more.push(blob(b"third"));
    assert_eq!(
        import_sidecar(true, &more, &archive),
        Err(BundleError::MissingEntries(vec![address(b"third")]))
    );
    // An entry that nothing describes.
    let name = varve::archive::entry_name(&described[1].hash);
    assert_eq!(
        import_sidecar(true, &described[..1], &archive),
        Err(BundleError::UnknownEntry(name))
    );
    // The same entry twice.
    let entries = &archive[..archive.len() - 1024];
    let mut twice = entries.to_vec();
    twice.extend_from_slice(&entries[..1024]);
    twice.extend_from_slice(&[0u8; 1024]);
    assert_eq!(
        import_sidecar(true, &described, &twice),
        Err(BundleError::DuplicateEntry(described[0].hash))
    );
    // Bytes that do not have the address that their entry claims.
    let mut forged = archive.clone();
    forged[512] ^= 1;
    assert!(matches!(
        import_sidecar(true, &described, &forged),
        Err(BundleError::HashMismatch { claimed, .. }) if claimed == described[0].hash
    ));
    // A size that differs from the description.
    let mut other = described.clone();
    other[0].byte_size += 1;
    assert_eq!(
        import_sidecar(true, &other, &archive),
        Err(BundleError::SizeMismatch {
            hash: described[0].hash,
            described: contents[0].len() as u64 + 1,
            actual: contents[0].len() as u64,
        })
    );
    assert_eq!(
        write_sidecar(true, &other, &contents),
        Err(BundleError::SizeMismatch {
            hash: described[0].hash,
            described: contents[0].len() as u64 + 1,
            actual: contents[0].len() as u64,
        })
    );
    // A manifest that declares no archive.
    assert_eq!(import_sidecar(false, &described, &archive), Err(BundleError::NotBundled));
    assert_eq!(write_sidecar(false, &described, &contents), Err(BundleError::NotBundled));
}

#[test]
fn malformed_archives_are_refused() {
    let refused = |archive: &[u8], what: &str| {
        assert_eq!(
            import_sidecar(true, &[], archive),
            Err(BundleError::MalformedArchive(what.to_string()))
        );
    };
    refused(&[], "truncated archive");
    refused(&[0u8; 511], "truncated archive");
    refused(&header("a", 0, b'5'), "unsupported entry type '5'");
    let mut nameless = header("a", 0, b'0');
    nameless[0] = 0;
    refused(&nameless, "empty entry name");
    let mut odd = header("a", 0, b'0');
    odd[124] = b'9';
    refused(&odd, "bad octal field");
    refused(&header("a", 5, b'x'), "truncated pax header");
    let mut short = header("a", 5, b'x');
    short.extend_from_slice(b"12345");
    refused(&short, "truncated padding");
    let pax = |data: &[u8]| {
        let mut tar = header("a", data.len() as u64, b'x');
        tar.extend_from_slice(data);
        tar.extend_from_slice(&vec![0u8; 512 - data.len()]);
        tar
    };
    refused(&pax(b"12 size=abc\n"), "bad pax size");
    refused(&pax(&[0xff, 0xfe]), "pax header not UTF-8");
    // Other records and lines without a value do not count.
    let mut fine = pax(b"11 mtime=0\nnothing\n");
    fine.extend_from_slice(&[0u8; 1024]);
    assert_eq!(import_sidecar(true, &[], &fine), Ok(vec![]));
}

#[test]
fn large_blobs_get_an_extended_header() {
    let hash = address(b"large");
    let small = entry_head(&hash, USTAR_MAX);
    assert_eq!(small.len(), BLOCK);
    let large = entry_head(&hash, USTAR_MAX + 1);
    assert_eq!(large.len(), 3 * BLOCK);
    let described = vec![DescribedBlob {
        hash,
        byte_size: USTAR_MAX + 1,
        content_type: "video/mp4".to_string(),
    }];
    let mut import = SidecarImport::begin(true, &described).unwrap();
    let SidecarStep::Pax { size } = import.next(&large[..BLOCK]).unwrap() else {
        panic!("an extended header comes first");
    };
    import.pax(&large[BLOCK..BLOCK + size as usize]).unwrap();
    assert_eq!(padding(size), BLOCK - size as usize);
    assert_eq!(
        import.next(&large[2 * BLOCK..]),
        Ok(SidecarStep::Blob {
            hash,
            byte_size: USTAR_MAX + 1,
            content_type: "video/mp4".to_string(),
        })
    );
    import.accept(hash).unwrap();
    assert_eq!(import.next(&[0u8; BLOCK]), Ok(SidecarStep::End));
    assert_eq!(import.finish(), Ok(vec![hash]));
}

#[test]
fn lines_describe_blobs_once_in_order() {
    let describe = |content: &[u8]| Line::Attachment {
        hash: address(content),
        byte_size: content.len() as u64,
        content_type: "text/plain".to_string(),
    };
    let lines = vec![
        describe(b"b"),
        Line::Other(CanonicalValue::Null),
        describe(b"a"),
        Line::Snapshot {
            hash: address(b"c"),
            byte_size: 1,
            content_type: "application/json".to_string(),
        },
        describe(b"a"),
    ];
    let described = described_blobs(&lines);
    assert_eq!(described.len(), 3);
    assert!(described.windows(2).all(|w| w[0].hash.digest < w[1].hash.digest));
}

#[test]
fn surfaces_and_defaults_come_through() {
    let surface = Surface {
        id: SurfaceId::new("s1"),
        revision: RevisionId::new("r1"),
        body: CanonicalValue::String("layout".to_string()),
    };
    let defaults = BlockDefaults {
        block: BlockRef { id: BlockId::new("b1"), version: 2 },
        body: CanonicalValue::Int(3),
    };
    let line = block_defaults_line(&defaults).unwrap();
    assert!(matches!(
        &line,
        Line::BlockDefaults { hash, .. } if *hash == hash_plain(&CanonicalValue::Int(3)).unwrap()
    ));
    let lines = vec![surface_line(&surface), line];
    assert_eq!(surfaces(&lines), vec![surface]);
    assert_eq!(block_defaults(&lines), vec![defaults]);
    let unsafe_body = BlockDefaults {
        block: BlockRef { id: BlockId::new("b1"), version: 2 },
        body: CanonicalValue::Int(i64::MAX),
    };
    assert!(block_defaults_line(&unsafe_body).is_err());
}

#[test]
fn an_entry_is_named_by_a_path() {
    let content = b"hello";
    let described = vec![blob(content)];
    let name = varve::archive::entry_name(&described[0].hash);
    let archive = |name: &str| {
        let mut tar: Vec<u8> = Vec::new();
        tar.extend_from_slice(&header(name, content.len() as u64, b'0'));
        tar.extend_from_slice(content);
        tar.extend_from_slice(&vec![0u8; BLOCK - content.len()]);
        tar.extend_from_slice(&[0u8; 2 * BLOCK]);
        tar
    };
    assert_eq!(import_sidecar(true, &described, &archive(&name)), Ok(vec![described[0].hash]));
    let colon = described[0].hash.to_string();
    assert_eq!(
        import_sidecar(true, &described, &archive(&colon)),
        Err(BundleError::UnknownEntry(colon))
    );
}
