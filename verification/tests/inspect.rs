use erofs_rs::error::Error;
use erofs_rs::inspect::{
    check_output_size, format_line, format_mode, image_source, remote_source, size_unit,
    time_format, ImageSource, InspectArgs, InspectSubcommands, SizeUnit,
};
use erofs_rs::text::{to_decimal, to_hex, to_hex32, trim_end_nul};
use erofs_rs::types::{Inode, InodeBody, InodeCompact};

fn inode(mode: u16) -> Inode {
    Inode {
        nid: 1,
        body: InodeBody::Compact(InodeCompact {
            format: 0,
            xattr_count: 0,
            mode,
            nlink: 1,
            size: 0,
            inode_data: 0,
            inode: 0,
            uid: 0,
            gid: 0,
        }),
    }
}

#[test]
fn modes_as_text() {
    assert_eq!(format_mode(&inode(0o100644)), "-rw-r--r--");
    assert_eq!(format_mode(&inode(0o040755)), "drwxr-xr-x");
    assert_eq!(format_mode(&inode(0o100000)), "----------");
    assert_eq!(format_mode(&inode(0o107777)), "-rwxrwxrwx");
    let letters = "rwxrwxrwx";
    for bit in 0..9usize {
        let text = format_mode(&inode(1 << (8 - bit)));
        let mut expected = "----------".to_string();
        expected.replace_range(bit + 1..bit + 2, &letters[bit..bit + 1]);
        assert_eq!(text, expected);
    }
}

#[test]
fn size_units() {
    assert_eq!(size_unit(0), SizeUnit::Byte);
    assert_eq!(size_unit(1023), SizeUnit::Byte);
    assert_eq!(size_unit(1024), SizeUnit::Kibibyte);
    assert_eq!(size_unit(1024 * 1024 - 1), SizeUnit::Kibibyte);
    assert_eq!(size_unit(1024 * 1024), SizeUnit::Mebibyte);
    assert_eq!(size_unit(1024 * 1024 * 1024 - 1), SizeUnit::Mebibyte);
    assert_eq!(size_unit(1024 * 1024 * 1024), SizeUnit::Gibibyte);
}

#[test]
fn time_formats() {
    assert_eq!(time_format(2024, 2024), "%b %e %H:%M");
    assert_eq!(time_format(2023, 2024), "%b %e  %Y");
}

#[test]
fn lines_are_padded() {
    assert_eq!(format_line("m", "12B", "t", "n"), format!("{} {:>8} {} {}", "m", "12B", "t", "n"));
    assert_eq!(format_line("m", "", "", "n"), format!("{} {:>8} {} {}", "m", "", "", "n"));
    assert_eq!(format_line("m", "12345678", "t", "n"), "m 12345678 t n");
    assert_eq!(format_line("m", "123456789", "t", "n"), "m 123456789 t n");
}

#[test]
fn output_is_limited() {
    assert!(check_output_size(1024 * 1024).is_ok());
    let r = check_output_size(1024 * 1024 + 1);
    assert!(matches!(r, Err(Error::FileTooLarge(t)) if t == "file too large to output (>1 MiB)"));
}

#[test]
fn local_images() {
    for path in ["image.erofs", "/a/b", "htt", "ftp://x/y", "", "HTTP://x/y"] {
        match image_source(path).unwrap() {
            ImageSource::Local { path: p } => assert_eq!(p, path),
            other => panic!("{:?}", other),
        }
    }
}

#[test]
fn remote_images() {
    match image_source("http://example.com/images/system.erofs?x=1").unwrap() {
        ImageSource::Remote { endpoint, path } => {
            assert_eq!(endpoint, "http://example.com");
            assert_eq!(path, "/images/system.erofs");
        }
        other => panic!("{:?}", other),
    }
    match image_source("https://user@example.com:8443/a").unwrap() {
        ImageSource::Remote { endpoint, path } => {
            assert_eq!(endpoint, "https://user@example.com:8443");
            assert_eq!(path, "/a");
        }
        other => panic!("{:?}", other),
    }
    let r = image_source("http");
    assert!(matches!(r, Err(Error::InvalidUrl(t)) if t == "relative URL without a base"));
}

#[test]
fn url_parts_are_taken_over() {
    let r = remote_source(Ok(("http://h".to_string(), "/p".to_string()))).unwrap();
    assert!(matches!(r, ImageSource::Remote { endpoint, path } if endpoint == "http://h" && path == "/p"));
    let r = remote_source(Err("why".to_string()));
    assert!(matches!(r, Err(Error::InvalidUrl(t)) if t == "why"));
}

#[test]
fn arguments_hold_what_is_to_be_done() {
    let args = InspectArgs {
        image: "i".to_string(),
        operation: InspectSubcommands::Ls { path: "/".to_string() },
    };
    assert!(matches!(args.operation, InspectSubcommands::Ls { path } if path == "/"));
    assert_eq!(args.image, "i");
}

#[test]
fn numbers_as_text() {
    for n in [0u64, 9, 10, 1234567890, u64::MAX] {
        assert_eq!(to_decimal(n), format!("{}", n));
    }
    for n in [0u32, 0xe0f5_e1e2, 0xff, u32::MAX] {
        assert_eq!(to_hex32(n), format!("{:#010x}", n));
    }
    assert_eq!(to_hex(&[0, 0x1f, 0xa0, 0xff]), "001fa0ff");
    assert_eq!(trim_end_nul("\0a\0\0"), "\0a");
    assert_eq!(trim_end_nul("\0"), "");
}
