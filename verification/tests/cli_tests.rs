use rustarch::cli::{
    finish_command, hex_digit, load_key, parse_args, parse_cipher, parse_compression, parse_fec, parse_hex_key,
    split_option, validate_pack_key, CLICommand, KeySource, ParsedCommand,
};
use rustarch::error::AppError;
use rustarch::ids::{CipherId, CompressionId, FecId};
use rustarch::paths::resolve_output_path;

fn args(items: &[&str]) -> Vec<Vec<u8>> {
    items.iter().map(|s| s.as_bytes().to_vec()).collect()
}

fn run(items: &[&str]) -> Result<CLICommand, AppError> {
    let parsed = parse_args(&args(items))?;
    finish_command(parsed, None)
}

#[test]
fn no_arguments_means_help() {
    assert!(matches!(run(&[]), Ok(CLICommand::Help)));
    assert!(matches!(run(&["help"]), Ok(CLICommand::Help)));
    assert!(matches!(run(&["--version"]), Ok(CLICommand::Version)));
    assert!(matches!(run(&["frobnicate"]), Err(AppError::CLIUsage(_))));
}

#[test]
fn pack_defaults_to_deflate_without_cipher() {
    match run(&["pack", "src", "out.rarc"]).unwrap() {
        CLICommand::Pack { source_path, target_archive_path, settings, encode_key } => {
            assert_eq!(source_path, b"src".to_vec());
            assert_eq!(target_archive_path, b"out.rarc".to_vec());
            assert_eq!(settings.compression, CompressionId::Deflate);
            assert_eq!(settings.cipher, CipherId::NoCipher);
            assert_eq!(settings.fec, FecId::NoFec);
            assert!(encode_key.is_empty());
        },
        other => panic!("unexpected {:?}", other),
    }
}

#[test]
fn pack_with_every_option() {
    let command = run(&["p", "a", "b", "-c", "LZSS", "--cipher=xor", "--fec", "rs", "--key-hex", "de:ad:BE:ef"]).unwrap();
    match command {
        CLICommand::Pack { settings, encode_key, .. } => {
            assert_eq!(settings.compression, CompressionId::LZSS);
            assert_eq!(settings.cipher, CipherId::Xor);
            assert_eq!(settings.fec, FecId::ReedSolomon);
            assert_eq!(encode_key, vec![0xde, 0xad, 0xbe, 0xef]);
        },
        other => panic!("unexpected {:?}", other),
    }
}

#[test]
fn pack_errors() {
    assert!(matches!(run(&["pack", "only_one"]), Err(AppError::CLIUsage(_))));
    assert!(matches!(run(&["pack", "a", "b", "--cipher", "xor"]), Err(AppError::CLIUsage(_))));
    assert!(matches!(run(&["pack", "a", "b", "--key", "k"]), Err(AppError::CLIUsage(_))));
    assert!(matches!(run(&["pack", "a", "b", "-c", "lzss", "-c", "rle"]), Err(AppError::CLIUsage(_))));
    assert!(matches!(run(&["pack", "a", "b", "--bogus"]), Err(AppError::CLIUsage(_))));
    assert!(matches!(run(&["pack", "a", "b", "--fec", "hamming7-4"]), Err(AppError::CLIUsage(_))));
    assert!(matches!(run(&["pack", "a", "b", "-c"]), Err(AppError::CLIUsage(_))));
    assert!(matches!(run(&["pack", "a", "b", "--cipher="]), Err(AppError::CLIUsage(_))));
    assert!(matches!(run(&["pack", "a", "b", "-h"]), Ok(CLICommand::Help)));
}

#[test]
fn double_dash_ends_options() {
    match run(&["pack", "--", "-weird", "out"]).unwrap() {
        CLICommand::Pack { source_path, .. } => assert_eq!(source_path, b"-weird".to_vec()),
        other => panic!("unexpected {:?}", other),
    }
}

#[test]
fn unpack_and_list() {
    match run(&["unpack", "a.rarc", "dest", "--key", "pw"]).unwrap() {
        CLICommand::Unpack { source_path, target_unpack_path, decode_key } => {
            assert_eq!((source_path, target_unpack_path, decode_key), (b"a.rarc".to_vec(), b"dest".to_vec(), b"pw".to_vec()));
        },
        other => panic!("unexpected {:?}", other),
    }
    assert!(matches!(run(&["unpack", "a.rarc", "dest", "--cipher", "xor"]), Err(AppError::CLIUsage(_))));
    match run(&["ls", "a.rarc"]).unwrap() {
        CLICommand::ShowArchiveInnerStructure { archive_path } => assert_eq!(archive_path, b"a.rarc".to_vec()),
        other => panic!("unexpected {:?}", other),
    }
    assert!(matches!(run(&["list", "--", "-dash.rarc"]), Ok(CLICommand::ShowArchiveInnerStructure { .. })));
    assert!(matches!(run(&["list", "-x"]), Err(AppError::CLIUsage(_))));
    assert!(matches!(run(&["list"]), Err(AppError::CLIUsage(_))));
    assert!(matches!(run(&["list", ""]), Err(AppError::CLIUsage(_))));
    assert!(matches!(run(&["list", "-V"]), Ok(CLICommand::Version)));
}

#[test]
fn key_file_is_read_by_the_caller() {
    let parsed = parse_args(&args(&["pack", "a", "b", "--cipher", "xor", "--key-file", "k.bin"])).unwrap();
    match &parsed {
        ParsedCommand::Pack { key: Some(KeySource::File(path)), .. } => assert_eq!(path, &b"k.bin".to_vec()),
        other => panic!("unexpected {:?}", other),
    }
    match finish_command(parsed.clone(), Some(Ok(vec![1, 2, 3]))).unwrap() {
        CLICommand::Pack { encode_key, .. } => assert_eq!(encode_key, vec![1, 2, 3]),
        other => panic!("unexpected {:?}", other),
    }
    assert!(matches!(finish_command(parsed, Some(Err("missing".to_string()))), Err(AppError::CLIUsage(_))));
}

#[test]
fn key_helpers() {
    assert_eq!(parse_hex_key(b"0a-0B 10").unwrap(), vec![0x0a, 0x0b, 0x10]);
    assert!(matches!(parse_hex_key(b"abc"), Err(AppError::CLIUsage(_))));
    assert!(matches!(parse_hex_key(b""), Err(AppError::CLIUsage(_))));
    assert!(matches!(parse_hex_key(b"zz"), Err(AppError::CLIUsage(_))));
    assert_eq!(hex_digit(b'F').unwrap(), 15);
    assert!(hex_digit(b'g').is_err());
    assert_eq!(load_key(None, None).unwrap(), Vec::<u8>::new());
    assert_eq!(load_key(Some(KeySource::Text(b"pw".to_vec())), None).unwrap(), b"pw".to_vec());
    assert!(load_key(Some(KeySource::Text(vec![0xff])), None).is_err());
    assert!(load_key(Some(KeySource::Bytes(vec![0; 1024 * 1024 + 1])), None).is_err());
    assert!(validate_pack_key(CipherId::Xor, &[1]).is_ok());
    assert!(validate_pack_key(CipherId::NoCipher, &[]).is_ok());
    assert!(validate_pack_key(CipherId::NoCipher, &[1]).is_err());
}

#[test]
fn algorithm_names() {
    assert_eq!(parse_compression(b"store").unwrap(), CompressionId::NoCompression);
    assert_eq!(parse_compression(b"Huff").unwrap(), CompressionId::Huffman);
    assert!(parse_compression(b"zip").is_err());
    assert_eq!(parse_cipher(b"XOR").unwrap(), CipherId::Xor);
    assert_eq!(parse_fec(b"reed_solomon").unwrap(), FecId::ReedSolomon);
    assert!(parse_fec(b"hamming15-11").is_err());
}

#[test]
fn option_splitting() {
    assert_eq!(split_option(b"--fec=rs").unwrap(), Some((b"--fec".to_vec(), Some(b"rs".to_vec()))));
    assert_eq!(split_option(b"-c").unwrap(), Some((b"-c".to_vec(), None)));
    assert_eq!(split_option(b"-").unwrap(), None);
    assert_eq!(split_option(b"path").unwrap(), None);
    assert!(split_option(&[b'-', 0xff]).is_err());
}

#[test]
fn output_paths_stay_inside() {
    assert_eq!(resolve_output_path(b"a/./b//c.txt").unwrap(), vec![b"a".to_vec(), b"b".to_vec(), b"c.txt".to_vec()]);
    assert_eq!(resolve_output_path(b"").unwrap(), Vec::<Vec<u8>>::new());
    assert!(matches!(resolve_output_path(b"a/../b"), Err(AppError::CorruptArchive(_))));
    assert!(matches!(resolve_output_path(b".."), Err(AppError::CorruptArchive(_))));
    assert_eq!(resolve_output_path(b"..a/b..").unwrap(), vec![b"..a".to_vec(), b"b..".to_vec()]);
}

#[test]
fn compression_names_parse_back() {
    let all = [
        CompressionId::NoCompression,
        CompressionId::RLE,
        CompressionId::Huffman,
        CompressionId::LZSS,
        CompressionId::Deflate,
    ];
    for c in all {
        assert_eq!(parse_compression(c.as_str().as_bytes()).unwrap(), c);
        for d in all {
            if c != d {
                assert_ne!(c.as_str(), d.as_str());
            }
        }
    }
}
