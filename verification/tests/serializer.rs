use lipi::name_table::NameTable;
use lipi::opcode::{CompiledProgram, FuncDef, LvmValue, Opcode};
use lipi::serializer::{decode_op, decode_program, encode_op, encode_program};

fn sample() -> CompiledProgram {
    let mut functions = NameTable::new();
    functions.insert(
        "जोड़ो".to_string(),
        FuncDef {
            params: vec!["अ".to_string(), "ब".to_string()],
            start_ip: 3,
            vararg: None,
            defaults: vec![None, Some(LvmValue::Number(2.0f64.to_bits()))],
            is_generator: false,
        },
    );
    let mut class_parents = NameTable::new();
    class_parents.insert("बच्चा".to_string(), "माता".to_string());
    CompiledProgram {
        instructions: vec![
            Opcode::Push(LvmValue::Str("नमस्ते".to_string())),
            Opcode::Print,
            Opcode::Jump(0),
            Opcode::LoadVar("अ".to_string()),
            Opcode::Return,
        ],
        lines: vec![1, 1, 2, 3, 3],
        functions,
        class_parents,
    }
}

#[test]
fn save_then_load() {
    let p = sample();
    let bytes = encode_program(&p).unwrap();
    assert_eq!(&bytes[0..4], b"LIPI");
    assert_eq!(bytes[4], 5);
    let back = decode_program(&bytes).unwrap();
    assert_eq!(back.instructions.len(), 5);
    assert!(matches!(&back.instructions[0], Opcode::Push(LvmValue::Str(s)) if s == "नमस्ते"));
    assert!(matches!(back.instructions[1], Opcode::Print));
    assert!(matches!(back.instructions[2], Opcode::Jump(0)));
    assert!(matches!(&back.instructions[3], Opcode::LoadVar(s) if s == "अ"));
    assert_eq!(back.lines, vec![1, 1, 2, 3, 3]);
    let f = back.functions.get("जोड़ो").unwrap();
    assert_eq!(f.params, vec!["अ".to_string(), "ब".to_string()]);
    assert_eq!(f.start_ip, 3);
    assert!(matches!(f.defaults[1], Some(LvmValue::Number(b)) if b == 2.0f64.to_bits()));
    assert_eq!(back.class_parents.get("बच्चा").map(|s| s.as_str()), Some("माता"));
}

#[test]
fn load_rejects_other_files() {
    assert!(decode_program(b"ZIPX").is_err());
    assert!(decode_program(b"LI").is_err());
    let mut bytes = encode_program(&sample()).unwrap();
    bytes[4] = 9;
    assert!(decode_program(&bytes).is_err());
    let full = encode_program(&sample()).unwrap();
    assert!(decode_program(&full[..full.len() - 1]).is_err());
}

#[test]
fn load_error_messages() {
    assert_eq!(decode_program(b"LIPX\x05").err().unwrap(), "LIPI bytecode नहीं है");
    assert_eq!(decode_program(b"LIPI\x09").err().unwrap(), "असमर्थित bytecode संस्करण: 9");
    assert_eq!(decode_program(b"LIPI\x05\x00").err().unwrap(), "bytecode अपूर्ण (u32 read)");
    // no functions, no parents, one instruction with an unknown tag
    let bytes = b"LIPI\x05\x00\x00\x00\x00\x00\x00\x00\x00\x01\x00\x00\x00\xEE";
    assert_eq!(decode_program(bytes).err().unwrap(), "अज्ञात opcode tag: 0xEE");
}

#[test]
fn load_fills_missing_defaults_and_lines() {
    let mut p = sample();
    p.lines = vec![7];
    let mut functions = NameTable::new();
    functions.insert(
        "क".to_string(),
        FuncDef {
            params: vec!["x".to_string(), "y".to_string()],
            start_ip: 0,
            vararg: None,
            defaults: vec![],
            is_generator: true,
        },
    );
    p.functions = functions;
    let back = decode_program(&encode_program(&p).unwrap()).unwrap();
    assert_eq!(back.lines, vec![7, 0, 0, 0, 0]);
    let f = back.functions.get("क").unwrap();
    assert_eq!(f.defaults.len(), 2);
    assert!(f.defaults.iter().all(|d| d.is_none()));
    assert!(f.is_generator);
}

#[test]
fn one_instruction_reads_back() {
    let mut buf = Vec::new();
    assert!(encode_op(&mut buf, &Opcode::Call("जोड़ो".to_string(), 2)).is_ok());
    assert!(encode_op(&mut buf, &Opcode::Jump(70000)).is_ok());
    let mut pos = 0;
    let first = decode_op(&buf, &mut pos).unwrap();
    assert!(matches!(first, Opcode::Call(ref n, 2) if n == "जोड़ो"));
    let second = decode_op(&buf, &mut pos).unwrap();
    assert!(matches!(second, Opcode::Jump(70000)));
    assert_eq!(pos, buf.len());
}
