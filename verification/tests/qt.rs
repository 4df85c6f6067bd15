use fastcull_core::clip::qt::{
    be32, be64, display_matrix, header_len, parse_stsz, read_movie, sample_offsets, write_header,
    Parsed, Sample, TrackSpec, TIMESCALE,
};

/// One, in the fixed point of a matrix.
const ONE: i32 = 0x0001_0000;

fn track(sizes: &[u64], orientation: u16) -> TrackSpec {
    TrackSpec {
        width: 8640,
        height: 5760,
        orientation,
        sample_ms: 33,
        sample_sizes: sizes.to_vec(),
    }
}

fn movie_bytes(t: &TrackSpec) -> Vec<u8> {
    let mut out = Vec::new();
    write_header(&mut out, t);
    for (i, len) in t.sample_sizes.iter().enumerate() {
        out.extend(std::iter::repeat_n(i as u8, *len as usize));
    }
    out
}

#[test]
fn the_quoted_header_size_is_the_written_one() {
    for n in [2usize, 3, 17, 400] {
        let sizes: Vec<u64> = (0..n).map(|i| 1000 + i as u64).collect();
        let s = track(&sizes, 1);
        let mut out = Vec::new();
        write_header(&mut out, &s);
        assert_eq!(
            out.len() as u64,
            header_len(n, s.sample_bytes()),
            "{n} samples: the quoted header size is not the written one"
        );
        assert_eq!(sample_offsets(&s)[0], out.len() as u64);
    }
}

#[test]
fn the_reader_confirms_what_the_writer_promised() {
    let s = track(&[500, 640, 480], 1);
    let bytes = movie_bytes(&s);
    let m = read_movie(&bytes).unwrap();
    assert_eq!(&m.major_brand, b"qt  ");
    assert!(m.moov_before_mdat, "the file must play while it copies");
    assert_eq!(&m.format, b"jpeg");
    assert_eq!(m.timescale, TIMESCALE);
    assert_eq!(m.sample_ms, 33);
    assert_eq!(m.stts_entries, 1, "constant frame rate, one entry");
    assert!(m.co64, "64-bit offsets always, never stco");
    assert_eq!((m.width, m.height), (8640, 5760));
    assert_eq!((m.sample_width, m.sample_height), (8640, 5760));
    assert_eq!(m.matrix, display_matrix(1));
    assert_eq!(
        m.samples,
        sample_offsets(&s)
            .into_iter()
            .zip(&s.sample_sizes)
            .map(|(offset, size)| Sample {
                offset,
                size: *size
            })
            .collect::<Vec<_>>()
    );
    for (i, sample) in m.samples.iter().enumerate() {
        let at = sample.offset as usize;
        let end = at + sample.size as usize;
        assert!(bytes[at..end].iter().all(|b| *b == i as u8), "sample {i}");
    }
}

#[test]
fn portrait_frames_turn_the_display_not_the_pixels() {
    assert_eq!(display_matrix(1), [ONE, 0, 0, 0, ONE, 0, 0, 0, 0x4000_0000]);
    assert_eq!(display_matrix(3)[0], -ONE);
    assert_eq!(display_matrix(3)[4], -ONE);
    assert_eq!([display_matrix(6)[1], display_matrix(6)[3]], [ONE, -ONE]);
    assert_eq!([display_matrix(8)[1], display_matrix(8)[3]], [-ONE, ONE]);
    let s = track(&[100, 100], 6);
    let m = read_movie(&movie_bytes(&s)).unwrap();
    assert_eq!((m.width, m.height), (8640, 5760));
    assert_eq!(m.matrix, display_matrix(6));
}

#[test]
fn offsets_past_four_gigabytes_are_written_as_64_bit() {
    let sizes: Vec<u64> = vec![128 * 1024 * 1024; 40];
    let s = track(&sizes, 1);
    let offsets = sample_offsets(&s);
    assert!(
        *offsets.last().unwrap() > u64::from(u32::MAX),
        "the fixture must actually cross 4 GB"
    );
    let mut header = Vec::new();
    write_header(&mut header, &s);
    let mdat = header.len() - 16;
    assert_eq!(&header[mdat + 4..mdat + 8], b"mdat");
    assert_eq!(
        &header[mdat..mdat + 4],
        &1u32.to_be_bytes(),
        "largesize form"
    );
    assert_eq!(
        u64::from_be_bytes(header[mdat + 8..mdat + 16].try_into().unwrap()),
        s.sample_bytes() + 16
    );
    let at = find(&header, b"co64").expect("a co64 atom") + 4;
    assert_eq!(be32(&header, at + 4).unwrap() as usize, offsets.len());
    for (i, want) in offsets.iter().enumerate() {
        assert_eq!(be64(&header, at + 8 + i * 8).unwrap(), *want, "offset {i}");
    }
}

fn find(haystack: &[u8], needle: &[u8; 4]) -> Option<usize> {
    haystack.windows(4).position(|w| w == needle)
}

#[test]
fn hostile_bytes_come_back_as_errors_not_panics() {
    let good = movie_bytes(&track(&[64, 64], 1));
    let cases: Vec<(&str, Vec<u8>)> = vec![
        ("empty", Vec::new()),
        ("garbage", vec![0xAB; 4096]),
        ("header only, no samples", {
            let mut v = Vec::new();
            write_header(&mut v, &track(&[64, 64], 1));
            v
        }),
        ("truncated mid-moov", good[..40].to_vec()),
        ("truncated mid-samples", good[..good.len() - 32].to_vec()),
        ("an atom claiming the whole address space", {
            let mut v = good.clone();
            v[0..4].copy_from_slice(&u32::MAX.to_be_bytes());
            v
        }),
        ("a zero-sized child atom", {
            let mut v = good.clone();
            let at = find(&v, b"stts").unwrap() - 4;
            v[at..at + 4].copy_from_slice(&0u32.to_be_bytes());
            v
        }),
        ("stsz claiming four billion samples", {
            let mut v = good.clone();
            let at = find(&v, b"stsz").unwrap() + 4;
            v[at + 8..at + 12].copy_from_slice(&u32::MAX.to_be_bytes());
            v
        }),
        ("co64 claiming four billion chunks", {
            let mut v = good.clone();
            let at = find(&v, b"co64").unwrap() + 4;
            v[at + 4..at + 8].copy_from_slice(&u32::MAX.to_be_bytes());
            v
        }),
        ("a uniform stsz with an absurd count", {
            let mut v = good.clone();
            let at = find(&v, b"stsz").unwrap() + 4;
            v[at + 4..at + 8].copy_from_slice(&64u32.to_be_bytes());
            v[at + 8..at + 12].copy_from_slice(&u32::MAX.to_be_bytes());
            v
        }),
    ];
    for (name, bytes) in cases {
        let result = read_movie(&bytes);
        assert!(result.is_err(), "{name}: must be refused, got {result:?}");
    }
    let mut only_ftyp = Vec::new();
    write_header(&mut only_ftyp, &track(&[8], 1));
    only_ftyp.truncate(20);
    assert!(read_movie(&only_ftyp).is_err());
}

#[test]
fn the_reader_walks_real_chunk_tables() {
    let mut p = Parsed {
        sizes: vec![10, 20, 30, 40, 50],
        offsets: vec![1000, 2000],
        stsc: vec![(1, 3), (2, 2)],
        ..Default::default()
    };
    assert_eq!(
        p.build_samples().unwrap(),
        vec![
            Sample {
                offset: 1000,
                size: 10
            },
            Sample {
                offset: 1010,
                size: 20
            },
            Sample {
                offset: 1030,
                size: 30
            },
            Sample {
                offset: 2000,
                size: 40
            },
            Sample {
                offset: 2040,
                size: 50
            },
        ]
    );
    p.sizes.pop();
    assert!(p.build_samples().is_err());
}

#[test]
fn the_chunk_table_is_read_forwards_only() {
    let p = Parsed {
        sizes: (0..14).map(|i| 10 + i).collect(),
        offsets: (0..6).map(|c| 1000 * (c + 1)).collect(),
        stsc: vec![(1, 2), (5, 3)],
        ..Default::default()
    };
    let samples = p.build_samples().unwrap();
    assert_eq!(samples.len(), 14);
    assert_eq!(samples[0].offset, 1000);
    assert_eq!(samples[2].offset, 2000, "chunk 2 starts the third sample");
    assert_eq!(samples[8].offset, 5000, "chunk 5 starts the ninth");
    assert_eq!(samples[11].offset, 6000, "and holds three");

    let late = Parsed {
        sizes: vec![10; 4],
        offsets: vec![1000, 2000],
        stsc: vec![(2, 2)],
        ..Default::default()
    };
    assert!(late.build_samples().is_err());

    let n = 20_000usize;
    let big = Parsed {
        sizes: vec![8; n],
        offsets: (0..n as u64).map(|c| 100 + c * 8).collect(),
        stsc: (0..n as u32).map(|r| (r + 1, 1)).collect(),
        ..Default::default()
    };
    let samples = big.build_samples().unwrap();
    assert_eq!(samples.len(), n);
    assert_eq!(samples[n - 1].offset, 100 + (n as u64 - 1) * 8);
}

#[test]
fn a_uniform_sample_size_table_is_read_but_bounded() {
    let mut p = Parsed::default();
    let mut body = Vec::new();
    body.extend_from_slice(&0u32.to_be_bytes());
    body.extend_from_slice(&64u32.to_be_bytes());
    body.extend_from_slice(&5u32.to_be_bytes());
    parse_stsz(&body, &mut p).unwrap();
    assert_eq!(p.sizes, vec![64u64; 5]);

    body[8..12].copy_from_slice(&u32::MAX.to_be_bytes());
    assert!(
        parse_stsz(&body, &mut Parsed::default()).is_err(),
        "four billion samples of a claimed size is not a file"
    );
}

#[test]
fn a_broken_file_says_what_is_wrong() {
    let e = read_movie(&[]).unwrap_err();
    assert!(!e.text().is_empty());
    let short = movie_bytes(&track(&[64, 64], 1));
    let e = read_movie(&short[..40]).unwrap_err();
    assert!(e.text().contains("atom size runs past the end"), "{}", e.text());
}

#[test]
fn a_track_lasts_as_long_as_its_samples() {
    assert_eq!(track(&[1, 2, 3], 1).duration_ms(), 99);
    assert_eq!(track(&[1, 2, 3], 1).sample_bytes(), 6);
}
