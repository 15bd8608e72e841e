use relocdiff::diff::DiffKind;
use relocdiff::input::{is_index_extension, parse_number, resolve_function, Input};
use relocdiff::matcher::ratio_at_least_quarter;
use relocdiff::sorted::{insert_range, insert_value};
use relocdiff::text::{ascii_lowercase, decimal_string, hex_string};
use relocdiff::{
    anchors, candidate_filter, changed_instructions, cheap_map_filter, diff_functions,
    exact_candidates, fingerprint, fingerprints, frame_index, lcs_length, positional_match_count,
    read_u16, read_u32, read_u64, relationship_counts, unframe_index, AnalysisIndex, Error,
    Function, FunctionSource, PeImage,
};

fn build_image(code: &[u8], second: &[u8], pdata: bool) -> Vec<u8> {
    let mut bytes = vec![0u8; 0x800];
    bytes[0..2].copy_from_slice(b"MZ");
    bytes[0x3c..0x40].copy_from_slice(&0x80u32.to_le_bytes());
    bytes[0x80..0x84].copy_from_slice(b"PE\0\0");
    let coff = 0x84;
    bytes[coff..coff + 2].copy_from_slice(&0x8664u16.to_le_bytes());
    bytes[coff + 2..coff + 4].copy_from_slice(&2u16.to_le_bytes());
    bytes[coff + 16..coff + 18].copy_from_slice(&0xf0u16.to_le_bytes());
    let optional = coff + 20;
    bytes[optional..optional + 2].copy_from_slice(&0x20bu16.to_le_bytes());
    bytes[optional + 16..optional + 20].copy_from_slice(&0x1000u32.to_le_bytes());
    bytes[optional + 24..optional + 32].copy_from_slice(&0x140000000u64.to_le_bytes());
    bytes[optional + 56..optional + 60].copy_from_slice(&0x3000u32.to_le_bytes());
    bytes[optional + 108..optional + 112].copy_from_slice(&16u32.to_le_bytes());
    if pdata {
        let exception = optional + 112 + 3 * 8;
        bytes[exception..exception + 4].copy_from_slice(&0x2000u32.to_le_bytes());
        bytes[exception + 4..exception + 8].copy_from_slice(&24u32.to_le_bytes());
    }
    let sections = optional + 0xf0;
    section_header(&mut bytes[sections..sections + 40], b".text", 0x1000, 0x200, 0x200, 0x60000020);
    section_header(
        &mut bytes[sections + 40..sections + 80],
        b".pdata",
        0x2000,
        0x100,
        0x400,
        0x40000040,
    );
    bytes[0x200..0x200 + code.len()].copy_from_slice(code);
    bytes[0x220..0x220 + second.len()].copy_from_slice(second);
    bytes[0x400..0x404].copy_from_slice(&0x1000u32.to_le_bytes());
    bytes[0x404..0x408].copy_from_slice(&0x1012u32.to_le_bytes());
    bytes[0x40c..0x410].copy_from_slice(&0x1020u32.to_le_bytes());
    bytes[0x410..0x414].copy_from_slice(&0x1030u32.to_le_bytes());
    bytes
}

fn section_header(header: &mut [u8], name: &[u8], rva: u32, size: u32, raw: u32, flags: u32) {
    header[..name.len()].copy_from_slice(name);
    header[8..12].copy_from_slice(&size.to_le_bytes());
    header[12..16].copy_from_slice(&rva.to_le_bytes());
    header[16..20].copy_from_slice(&size.to_le_bytes());
    header[20..24].copy_from_slice(&raw.to_le_bytes());
    header[36..40].copy_from_slice(&flags.to_le_bytes());
}

/// `mov rax,[rip+d]`, `call rel32`, `cmp eax,c`, `jne +0`, `ret`.
fn relocatable_code(rip: u32, call: u32, constant: u8) -> Vec<u8> {
    let mut code = vec![0x48, 0x8b, 0x05];
    code.extend(rip.to_le_bytes());
    code.push(0xe8);
    code.extend(call.to_le_bytes());
    code.extend([0x83, 0xf8, constant, 0x75, 0x00, 0xc3]);
    code
}

/// `mov rax,0x140001020`, `mov eax,c`, `ret`.
fn constant_code(constant: u8) -> Vec<u8> {
    let mut code = vec![0x48, 0xb8, 0x20, 0x10, 0x00, 0x40, 0x01, 0x00, 0x00, 0x00];
    code.extend([0xb8, constant, 0, 0, 0, 0xc3]);
    code
}

fn parsed(code: &[u8], second: &[u8]) -> PeImage {
    PeImage::parse(&build_image(code, second, true)).unwrap()
}

fn parse_error(bytes: &[u8]) -> Error {
    match PeImage::parse(bytes) {
        Ok(_) => panic!("the image parsed"),
        Err(error) => error,
    }
}

fn function(image: &PeImage, va: u64) -> Function {
    image.function_at_va(va).unwrap()
}

#[test]
fn rva_and_va_convert_both_ways() {
    let image = parsed(&relocatable_code(0x20, 5, 0x2a), &constant_code(5));
    for rva in [0u32, 0x1000, 0x1fff, 0x2fff] {
        let va = image.rva_to_va(rva).unwrap();
        assert_eq!(va, 0x140000000 + u64::from(rva));
        assert_eq!(image.va_to_rva(va).unwrap(), rva);
    }
    assert_eq!(image.image_base(), 0x140000000);
    assert_eq!(image.entry_rva(), 0x1000);
    assert_eq!(image.size_of_image(), 0x3000);
}

#[test]
fn addresses_outside_the_image_are_rejected() {
    let image = parsed(&relocatable_code(0x20, 5, 0x2a), &constant_code(5));
    assert!(matches!(image.va_to_rva(0x13fffffff), Err(Error::OutsideCode(0x13fffffff))));
    assert!(matches!(image.va_to_rva(0x140003000), Err(Error::OutsideCode(0x140003000))));
    assert!(matches!(image.rva_to_va(0x3000), Err(Error::OutsideCode(0x140003000))));
    assert!(matches!(
        image.function_at_va(0x140002000),
        Err(Error::OutsideCode(0x140002000))
    ));
    assert!(matches!(image.rva_to_file_offset(0x2f00), Err(Error::OutsideCode(0x140002f00))));
}

#[test]
fn code_between_functions_has_no_function() {
    let image = parsed(&relocatable_code(0x20, 5, 0x2a), &constant_code(5));
    assert!(matches!(
        image.function_at_va(0x140001040),
        Err(Error::NoFunction(0x140001040))
    ));
    assert!(matches!(image.function_at_rva(0x1018), Err(Error::NoFunction(0x140001018))));
}

#[test]
fn undecodable_function_reports_its_address() {
    let image = parsed(&[0x06], &constant_code(5));
    assert!(matches!(image.function_at_va(0x140001000), Err(Error::Decode(0x140001000))));
    let functions = image.functions();
    assert_eq!(functions.len(), 1);
    assert_eq!(functions[0].address, 0x140001020);
}

#[test]
fn malformed_headers_report_invalid_pe() {
    match parse_error(b"not a PE") {
        Error::InvalidPe(message) => assert_eq!(message, "missing DOS header"),
        other => panic!("unexpected {other:?}"),
    }
    let mut bytes = build_image(&relocatable_code(0x20, 5, 0x2a), &constant_code(5), true);
    bytes[0x80] = b'X';
    match parse_error(&bytes) {
        Error::InvalidPe(message) => assert_eq!(message, "missing PE signature"),
        other => panic!("unexpected {other:?}"),
    }
}

#[test]
fn other_machines_and_pe32_are_unsupported() {
    let mut bytes = build_image(&relocatable_code(0x20, 5, 0x2a), &constant_code(5), true);
    bytes[0x84..0x86].copy_from_slice(&0x14cu16.to_le_bytes());
    match parse_error(&bytes) {
        Error::Unsupported(message) => {
            assert_eq!(message, "machine 0x14c; v0.1 supports x86-64 only")
        }
        other => panic!("unexpected {other:?}"),
    }
    let mut bytes = build_image(&relocatable_code(0x20, 5, 0x2a), &constant_code(5), true);
    bytes[0x98..0x9a].copy_from_slice(&0x10bu16.to_le_bytes());
    match parse_error(&bytes) {
        Error::Unsupported(message) => {
            assert_eq!(message, "input is PE32; v0.1 supports PE32+ x86-64 only")
        }
        other => panic!("unexpected {other:?}"),
    }
}

#[test]
fn section_names_and_offsets_come_from_the_headers() {
    let image = parsed(&relocatable_code(0x20, 5, 0x2a), &constant_code(5));
    let sections = image.sections();
    assert_eq!(sections.len(), 2);
    assert_eq!(sections[0].name, ".text");
    assert_eq!(sections[1].name, ".pdata");
    assert!(sections[0].is_executable());
    assert!(!sections[1].is_executable());
    assert_eq!(image.rva_to_file_offset(0x1020).unwrap(), 0x220);
}

#[test]
fn little_endian_reads_and_truncation() {
    let bytes = [0x01u8, 0x02, 0x03, 0x04, 0x05, 0x06, 0x07, 0x08];
    assert_eq!(read_u16(&bytes, 0).unwrap(), 0x0201);
    assert_eq!(read_u32(&bytes, 4).unwrap(), 0x08070605);
    assert_eq!(read_u64(&bytes, 0).unwrap(), 0x0807060504030201);
    match read_u32(&bytes, 6) {
        Err(Error::InvalidPe(message)) => assert_eq!(message, "truncated header"),
        other => panic!("unexpected {other:?}"),
    }
    match read_u16(&bytes, usize::MAX) {
        Err(Error::InvalidPe(message)) => assert_eq!(message, "offset overflow"),
        other => panic!("unexpected {other:?}"),
    }
}

#[test]
fn heuristic_ranges_without_an_exception_table() {
    let image = PeImage::parse(&build_image(
        &relocatable_code(0x20, 0x100, 0x2a),
        &constant_code(5),
        false,
    ))
    .unwrap();
    let starts = image.function_starts();
    assert_eq!(starts[0], 0x140001000);
    let first = function(&image, 0x140001000);
    assert_eq!(first.source, FunctionSource::Heuristic);
    assert_eq!(first.instruction_count(), 5);
}

#[test]
fn blocks_split_after_conditional_jumps() {
    let image = parsed(&relocatable_code(0x20, 5, 0x2a), &constant_code(5));
    let first = function(&image, 0x140001004);
    assert_eq!(first.instruction_count(), 5);
    assert_eq!(first.block_count(), 2);
    assert_eq!(first.blocks[0].instructions, vec![0, 1, 2, 3]);
    assert_eq!(first.blocks[0].successors, vec![1]);
    assert_eq!(first.blocks[1].instructions, vec![4]);
    assert!(first.blocks[1].successors.is_empty());
    assert_eq!(first.call_count, 1);
    assert_eq!(first.conditional_branch_count, 1);
    assert_eq!(first.return_count, 1);
    let mut address = first.address;
    for instruction in &first.instructions {
        assert_eq!(instruction.address, address);
        address += u64::from(instruction.length);
    }
    assert_eq!(first.instructions[4].text, "ret");
}

#[test]
fn direct_calls_are_resolved_to_their_targets() {
    let image = parsed(&relocatable_code(0x20, 0x100, 0x2a), &constant_code(5));
    let first = function(&image, 0x140001000);
    assert_eq!(first.direct_call_targets(), vec![0x14000110c]);
    assert_eq!(first.instructions[1].branch_target, Some(0x14000110c));
    let second = function(&image, 0x140001020);
    assert!(second.direct_call_targets().is_empty());
}

#[test]
fn immediates_inside_the_image_become_image_addresses() {
    let image = parsed(&relocatable_code(0x20, 0x100, 0x2a), &constant_code(5));
    let second = function(&image, 0x140001020);
    let normalized = second.normalized();
    assert_eq!(normalized.len(), 3);
    assert_eq!(normalized[0].mnemonic, "mov");
    assert_eq!(normalized[0].operands, vec!["reg:rax", "image-address"]);
    assert_eq!(normalized[1].operands, vec!["reg:eax", "scalar:0x5"]);
    assert_eq!(normalized[2].mnemonic, "ret");
    assert!(normalized[2].operands.is_empty());
    let first = function(&image, 0x140001000);
    let normalized = first.normalized();
    assert_eq!(normalized[1].operands, vec!["external"]);
    assert_eq!(normalized[3].operands, vec!["local"]);
}

#[test]
fn relocated_functions_share_fingerprints() {
    let old = parsed(&relocatable_code(0x20, 0x100, 0x2a), &constant_code(5));
    let new = parsed(&relocatable_code(0x80, 0x125, 0x2a), &constant_code(6));
    let old_first = function(&old, 0x140001000);
    let new_first = function(&new, 0x140001000);
    assert_eq!(fingerprint(&old_first), fingerprint(&new_first));
    let old_second = function(&old, 0x140001020);
    let new_second = function(&new, 0x140001020);
    assert_eq!(fingerprint(&old_second), 0x68fa5d8d35f877f2);
    assert_eq!(fingerprint(&new_second), 0xa8e664cd2ed7af6d);
    let targets = new.functions();
    let prints = fingerprints(&targets);
    assert_eq!(prints.len(), 2);
    assert_eq!(exact_candidates(&old_first, &targets, &prints), vec![0]);
    assert!(exact_candidates(&old_second, &targets, &prints).is_empty());
}

#[test]
fn sequence_comparisons_of_two_functions() {
    let old = parsed(&relocatable_code(0x20, 0x100, 0x2a), &constant_code(5));
    let new = parsed(&relocatable_code(0x80, 0x125, 0x2a), &constant_code(6));
    let first = function(&old, 0x140001000);
    let relocated = function(&new, 0x140001000);
    let second = function(&old, 0x140001020);
    assert_eq!(lcs_length(&first, &relocated), 5);
    assert_eq!(positional_match_count(&first, &relocated), 5);
    assert_eq!(changed_instructions(&first, &relocated), 0);
    assert_eq!(lcs_length(&first, &second), 1);
    assert_eq!(lcs_length(&second, &first), 1);
    assert_eq!(positional_match_count(&first, &second), 0);
    assert_eq!(changed_instructions(&first, &second), 5);
}

#[test]
fn candidate_filters_compare_sizes() {
    let image = parsed(&relocatable_code(0x20, 5, 0x2a), &constant_code(5));
    let first = function(&image, 0x140001000);
    let second = function(&image, 0x140001020);
    assert!(candidate_filter(&first, &second));
    assert_eq!(candidate_filter(&first, &second), candidate_filter(&second, &first));
    assert!(candidate_filter(&first, &first));
    assert!(cheap_map_filter(&first, &second));
    assert!(cheap_map_filter(&first, &first));
    assert!(ratio_at_least_quarter(1, 4));
    assert!(!ratio_at_least_quarter(1, 5));
    assert!(ratio_at_least_quarter(0, 0));
    assert!(!ratio_at_least_quarter(0, 3));
}

#[test]
fn diff_of_a_function_with_itself_is_unchanged() {
    let image = parsed(&relocatable_code(0x20, 5, 0x2a), &constant_code(5));
    let first = function(&image, 0x140001000);
    let diff = diff_functions(&first, &first);
    assert_eq!(diff.operations.len(), 5);
    for (k, operation) in diff.operations.iter().enumerate() {
        assert_eq!(operation.kind, DiffKind::Unchanged);
        assert_eq!(operation.source_index, Some(k));
        assert_eq!(operation.target_index, Some(k));
    }
    assert_eq!(diff.changed_instructions, 0);
    assert_eq!(diff.inserted_instructions, 0);
    assert_eq!(diff.removed_instructions, 0);
    assert_eq!(diff.changed_blocks, 0);
    assert!(diff.structural_changes.is_empty());
}

#[test]
fn diff_reports_a_changed_constant() {
    let old = parsed(&relocatable_code(0x20, 0x100, 0x2a), &constant_code(5));
    let new = parsed(&relocatable_code(0x80, 0x125, 0x2a), &constant_code(6));
    let source = function(&old, 0x140001020);
    let target = function(&new, 0x140001020);
    let diff = diff_functions(&source, &target);
    let kinds: Vec<DiffKind> = diff.operations.iter().map(|op| op.kind).collect();
    assert_eq!(
        kinds,
        vec![DiffKind::Unchanged, DiffKind::ChangedConstant, DiffKind::Unchanged]
    );
    assert_eq!(diff.operations[1].source_index, Some(1));
    assert_eq!(diff.operations[1].target_index, Some(1));
    assert_eq!(diff.changed_instructions, 1);
    assert_eq!(diff.changed_constants, 1);
    assert_eq!(diff.changed_calls, 0);
    assert_eq!(diff.inserted_instructions, 0);
    assert_eq!(diff.removed_instructions, 0);
    assert_eq!(diff.changed_blocks, 1);
    assert!(diff.structural_changes.is_empty());
    assert_eq!(diff.source_address, 0x140001020);
    assert_eq!(diff.target_address, 0x140001020);
}

#[test]
fn diff_lists_every_instruction_in_order() {
    let image = parsed(&relocatable_code(0x20, 5, 0x2a), &constant_code(5));
    let first = function(&image, 0x140001000);
    let second = function(&image, 0x140001020);
    let diff = diff_functions(&first, &second);
    let sources: Vec<usize> = diff.operations.iter().filter_map(|op| op.source_index).collect();
    let targets: Vec<usize> = diff.operations.iter().filter_map(|op| op.target_index).collect();
    assert_eq!(sources, vec![0, 1, 2, 3, 4]);
    assert_eq!(targets, vec![0, 1, 2]);
    let unchanged = diff.operations.iter().filter(|op| op.kind == DiffKind::Unchanged).count();
    assert_eq!(unchanged, lcs_length(&first, &second));
    assert_eq!(diff.removed_instructions, 2);
    assert_eq!(diff.changed_instructions, 2);
    assert_eq!(diff.changed_calls, 1);
    assert_eq!(
        diff.structural_changes,
        vec![
            "blocks: 2 -> 1".to_string(),
            "edges: 1 -> 0".to_string(),
            "calls: 1 -> 0".to_string(),
            "conditional branches: 1 -> 0".to_string(),
        ]
    );
}

#[test]
fn index_answers_lookups_like_the_image() {
    let image = parsed(&relocatable_code(0x20, 5, 0x2a), &constant_code(5));
    let index = AnalysisIndex::from_image(&image);
    assert_eq!(index.image_base(), 0x140000000);
    assert_eq!(index.size_of_image(), 0x3000);
    assert_eq!(index.functions().len(), 2);
    for va in [0x140001000u64, 0x140001011, 0x140001020, 0x14000102f] {
        let from_image = image.function_at_va(va).unwrap();
        let from_index = index.function_at_va(va).unwrap();
        assert_eq!(from_index.address, from_image.address);
        assert_eq!(from_index.instruction_count(), from_image.instruction_count());
    }
    assert!(matches!(index.function_at_va(0x140001040), Err(Error::NoFunction(0x140001040))));
    assert!(matches!(index.function_at_rva(0x3000), Err(Error::OutsideCode(0x140003000))));
    assert!(matches!(index.function_at_va(0x13fffffff), Err(Error::OutsideCode(0x13fffffff))));
}

#[test]
fn index_frames_round_trip() {
    let payload = [9u8, 8, 7];
    let framed = frame_index(&payload);
    assert_eq!(framed, vec![b'R', b'D', b'X', b'I', 1, 9, 8, 7]);
    assert_eq!(unframe_index(&framed).unwrap(), &payload[..]);
    match unframe_index(b"RDX") {
        Err(Error::InvalidIndex(message)) => assert_eq!(message, "missing RDXI header"),
        other => panic!("unexpected {other:?}"),
    }
    match unframe_index(&[b'R', b'D', b'X', b'I', 2, 0]) {
        Err(Error::InvalidIndex(message)) => assert_eq!(message, "unsupported format version 2"),
        other => panic!("unexpected {other:?}"),
    }
}

#[test]
fn anchors_pair_unique_exact_matches() {
    let old = parsed(&relocatable_code(0x20, 0x100, 0x2a), &constant_code(5));
    let new = parsed(&relocatable_code(0x80, 0x125, 0x2a), &constant_code(6));
    let sources = old.functions();
    let targets = new.functions();
    let pairs = anchors(&sources, &targets);
    assert_eq!(pairs, vec![(0x140001000, 0x140001000)]);
    let duplicated = vec![sources[0].clone(), sources[0].clone()];
    assert!(anchors(&sources, &duplicated).is_empty());
    let calls = vec![(0x14000110c, 0x140001131)];
    assert_eq!(relationship_counts(&sources[0], &targets[0], &calls), (1, 1));
    assert_eq!(relationship_counts(&sources[0], &targets[1], &calls), (0, 1));
    assert_eq!(relationship_counts(&sources[0], &targets[0], &pairs), (0, 0));
}

#[test]
fn text_helpers_format_numbers() {
    assert_eq!(decimal_string(0), "0");
    assert_eq!(decimal_string(1234), "1234");
    assert_eq!(hex_string(0x2a), "0x2a");
    assert_eq!(hex_string(0), "0x0");
    assert_eq!(ascii_lowercase("ReG:RAX"), "reg:rax");
}

#[test]
fn sorted_inserts_keep_order_and_first_start() {
    let mut values = vec![1u32, 5, 9];
    insert_value(&mut values, 7);
    insert_value(&mut values, 5);
    insert_value(&mut values, 0);
    assert_eq!(values, vec![0, 1, 5, 7, 9]);
    let mut ranges = vec![(0x1000u32, 0x1010u32, FunctionSource::Pdata)];
    insert_range(&mut ranges, (0x1020, 0x1030, FunctionSource::Heuristic));
    insert_range(&mut ranges, (0x1000, 0x1040, FunctionSource::Heuristic));
    insert_range(&mut ranges, (0x800, 0x900, FunctionSource::Heuristic));
    assert_eq!(
        ranges,
        vec![
            (0x800, 0x900, FunctionSource::Heuristic),
            (0x1000, 0x1010, FunctionSource::Pdata),
            (0x1020, 0x1030, FunctionSource::Heuristic),
        ]
    );
}

#[test]
fn numbers_are_read_as_hexadecimal() {
    assert_eq!(parse_number("0x2A"), Ok(0x2a));
    assert_eq!(parse_number("  140001000 \n"), Ok(0x140001000));
    assert_eq!(parse_number("0X10"), Ok(16));
    assert_eq!(parse_number("+ff"), Ok(255));
    assert_eq!(parse_number("ffffffffffffffff"), Ok(u64::MAX));
    assert_eq!(
        parse_number("10000000000000000"),
        Err("invalid hexadecimal value: 10000000000000000".to_string())
    );
    assert_eq!(parse_number(" xyz "), Err("invalid hexadecimal value: xyz".to_string()));
    assert_eq!(parse_number("0x"), Err("invalid hexadecimal value: 0x".to_string()));
    assert_eq!(parse_number(""), Err("invalid hexadecimal value: ".to_string()));
    assert_eq!(parse_number("-1"), Err("invalid hexadecimal value: -1".to_string()));
}

#[test]
fn functions_are_resolved_by_address_or_rva() {
    let image = parsed(&relocatable_code(0x20, 5, 0x2a), &constant_code(5));
    let input = Input::Index(AnalysisIndex::from_image(&image));
    assert_eq!(resolve_function(&input, Some(0x140001020), None).unwrap().address, 0x140001020);
    assert_eq!(resolve_function(&input, None, Some(0x1004)).unwrap().address, 0x140001000);
    assert!(matches!(
        resolve_function(&input, None, Some(0x1_0000_0000)),
        Err(Error::OutsideCode(0x1_0000_0000))
    ));
    match resolve_function(&input, None, None) {
        Err(Error::InvalidPe(message)) => assert_eq!(message, "provide --address or --rva"),
        other => panic!("unexpected {other:?}"),
    }
    match resolve_function(&input, Some(1), Some(1)) {
        Err(Error::InvalidPe(message)) => {
            assert_eq!(message, "provide only one of --address or --rva")
        }
        other => panic!("unexpected {other:?}"),
    }
    let pe = Input::Pe(image);
    assert_eq!(pe.functions().len(), 2);
    assert_eq!(input.functions().len(), 2);
    assert!(matches!(pe.function_at_va(0x140001040), Err(Error::NoFunction(0x140001040))));
    assert!(is_index_extension(Some("RDX")));
    assert!(is_index_extension(Some("rdx")));
    assert!(!is_index_extension(Some("exe")));
    assert!(!is_index_extension(None));
}
