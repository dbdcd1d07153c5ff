use decaf_backend::codegen_wast::{bin_str, operand_str, un_str, AsmTemplate};
use decaf_backend::ir::{BinOp, Intrinsic, Operand, TacFunc, TacProgram, UnOp, VTbl};
use decaf_backend::print_wast::{data, func, to_wasm_int, to_wasm_string, wasm_string_len};
use decaf_backend::printer::IndentPrinter;

#[test]
fn wasm_int_is_little_endian_hex() {
    assert_eq!(to_wasm_int(0x01020304), "\"\\04\\03\\02\\01\"");
    assert_eq!(to_wasm_int(0), "\"\\00\\00\\00\\00\"");
    assert_eq!(to_wasm_int(0xABCDEF), "\"\\EF\\CD\\AB\\00\"");
    assert_eq!(to_wasm_int(20), "\"\\14\\00\\00\\00\"");
}

#[test]
fn wasm_int_keeps_low_four_bytes() {
    if usize::BITS == 64 {
        let big: u64 = 0x1_0000_0007;
        assert_eq!(to_wasm_int(big as usize), "\"\\07\\00\\00\\00\"");
    }
}

#[test]
fn wasm_string_escapes_unprintable_bytes() {
    assert_eq!(to_wasm_string("a\n"), "\"a\\0A\\00\"");
    assert_eq!(to_wasm_string(""), "\"\\00\"");
    assert_eq!(to_wasm_string("Hi ~"), "\"Hi ~\\00\"");
    assert_eq!(to_wasm_string("\u{7f}\t"), "\"\\7F\\09\\00\"");
    assert_eq!(to_wasm_string("é"), "\"\\C3\\A9\\00\"");
}

#[test]
fn wasm_string_len_pads_to_four() {
    assert_eq!(wasm_string_len(""), 4);
    assert_eq!(wasm_string_len("abc"), 4);
    assert_eq!(wasm_string_len("abcd"), 8);
    assert_eq!(wasm_string_len("abcdefg"), 8);
    assert_eq!(wasm_string_len("é"), 4);
    for n in 0..40usize {
        let s = "x".repeat(n);
        let r = wasm_string_len(&s);
        assert_eq!(r % 4, 0);
        assert!(r >= n + 1 && r <= n + 4);
    }
}

#[test]
fn operands_and_operators() {
    assert_eq!(operand_str(&Operand::Const(-5)), "(i32.const -5)");
    assert_eq!(operand_str(&Operand::Const(i32::MIN)), "(i32.const -2147483648)");
    assert_eq!(operand_str(&Operand::Const(0)), "(i32.const 0)");
    assert_eq!(operand_str(&Operand::Reg(3)), "(get_local 3)");
    assert_eq!(bin_str(&BinOp::Add), "i32.add");
    assert_eq!(bin_str(&BinOp::Ge), "i32.ge");
    assert_eq!(bin_str(&BinOp::Mod), "i32.mod");
    assert_eq!(un_str(&UnOp::Neg), "i32.neg");
    assert_eq!(un_str(&UnOp::Not), "i32.not");
}

#[test]
fn instruction_text() {
    let bin = AsmTemplate::Bin(BinOp::Sub, 2, Operand::Reg(0), Operand::Const(7));
    assert_eq!(bin.fmt(), "(set_local 2 (i32.sub (get_local 0) (i32.const 7)))");
    let un = AsmTemplate::Un(UnOp::Not, 1, Operand::Reg(4));
    assert_eq!(un.fmt(), "(set_local 1 (i32.not (get_local 4)))");
    assert_eq!(AsmTemplate::Mv(5, Operand::Const(1)).fmt(), "(set_local 5 (i32.const 1))");
    assert_eq!(AsmTemplate::Param(Operand::Reg(9)).fmt(), "(get_local 9)");
    assert_eq!(AsmTemplate::CallStatic(Some(3), "f".to_string()).fmt(), "(set_local 3 (call $f))");
    assert_eq!(AsmTemplate::CallStatic(None, "g".to_string()).fmt(), "(drop (call $g))");
    assert_eq!(
        AsmTemplate::Lw(1, Operand::Reg(2), -4).fmt(),
        "(set_local 1 (i32.load (i32.add (get_local 2) (i32.const -4))))"
    );
    assert_eq!(
        AsmTemplate::Sw(Operand::Const(8), Operand::Reg(2), 12).fmt(),
        "(i32.store (i32.add (get_local 2) (i32.const 12)) (i32.const 8))"
    );
    assert_eq!(AsmTemplate::La(6, "_A".to_string()).fmt(), "(set_local 6 (call $_A))");
    assert_eq!(AsmTemplate::Ret(Some(Operand::Reg(1))).fmt(), "(get_local 1)");
    assert_eq!(AsmTemplate::Ret(None).fmt(), "(i32.const 0)");
    assert_eq!(AsmTemplate::Li(1, 2).fmt(), "");
    assert_eq!(AsmTemplate::Label("L1".to_string()).fmt(), "");
    assert_eq!(AsmTemplate::CallVirtual(None, Operand::Reg(1)).fmt(), "");
    assert_eq!(AsmTemplate::CallIntrinsic(None, Intrinsic::Halt).fmt(), "");
}

#[test]
fn function_with_parameters_and_locals() {
    let mut p = IndentPrinter::new();
    let body = [AsmTemplate::Mv(1, Operand::Const(2)), AsmTemplate::Ret(Some(Operand::Reg(1)))];
    let fun = TacFunc { name: "main".to_string(), param_num: 2, max_reg: 2 };
    func(&body, "main", &mut p, &fun);
    let locals = format!("(local{})", " i32".repeat(32));
    let expected = format!(
        "(func $main (param i32) i32) (result i32)\n    {}\n    (set_local 1 (i32.const 2))\n    (get_local 1)\n    )\n\n",
        locals
    );
    assert_eq!(p.finish(), expected);
}

#[test]
fn function_without_parameters_or_registers() {
    let mut p = IndentPrinter::new();
    p.inc();
    let fun = TacFunc { name: "f".to_string(), param_num: 0, max_reg: 0 };
    func(&[AsmTemplate::Ret(None)], "f", &mut p, &fun);
    assert_eq!(p.finish(), "    (func $f (result i32)\n        (i32.const 0)\n        )\n\n");
}

const HEADER: &str = "(module\n    (import \"wasi_unstable\" \"fd_write\" (func $fd_write (param i32 i32 i32 i32) (result i32)))\n    (memory 1)\n    (export \"memory\" (memory 0))\n";

#[test]
fn data_of_one_class() {
    let pr = TacProgram {
        vtbl: vec![VTbl { class: "A".to_string(), parent: None, func: vec![0] }],
        func: vec![TacFunc { name: "A.f".to_string(), param_num: 1, max_reg: 1 }],
        str_pool: vec!["A".to_string()],
    };
    let mut p = IndentPrinter::new();
    data(&pr, &mut p);
    let expected = String::from(HEADER)
        + "    (data (i32.const 0) \"\\14\\00\\00\\00\")\n"
        + "    (func $_A (result i32)\n"
        + "        (i32.const 4))\n"
        + "    (data (i32.const 4) \"\\00\\00\\00\\00\")\n"
        + "    (data (i32.const 8) \"\\10\\00\\00\\00\")\n"
        + "    (data (i32.const 12) \"A.f\\00\")\n"
        + "    (data (i32.const 16) \"A\\00\")\n"
        + "\n"
        + "    (func $_STRING0 (result i32)\n"
        + "        (i32.const 20))\n"
        + "    (data (i32.const 20) \"A\\00\")\n"
        + "\n";
    assert_eq!(p.finish(), expected);
}

#[test]
fn data_of_a_subclass_and_strings() {
    let pr = TacProgram {
        vtbl: vec![
            VTbl { class: "Base".to_string(), parent: None, func: vec![] },
            VTbl { class: "D".to_string(), parent: Some(0), func: vec![1, 0] },
        ],
        func: vec![
            TacFunc { name: "Base.m".to_string(), param_num: 1, max_reg: 1 },
            TacFunc { name: "D.n".to_string(), param_num: 1, max_reg: 1 },
        ],
        str_pool: vec!["Base".to_string(), "D".to_string(), "hi\n".to_string()],
    };
    let mut p = IndentPrinter::new();
    data(&pr, &mut p);
    // Base: 8 + 0 + 8 = 16 bytes at 4; D: 8 + 8 + 4 = 20 bytes at 20; strings from 40.
    let expected = String::from(HEADER)
        + "    (data (i32.const 0) \"\\28\\00\\00\\00\")\n"
        + "    (func $_Base (result i32)\n"
        + "        (i32.const 4))\n"
        + "    (data (i32.const 4) \"\\00\\00\\00\\00\")\n"
        + "    (data (i32.const 8) \"\\0C\\00\\00\\00\")\n"
        + "    (data (i32.const 12) \"Base\\00\")\n"
        + "    (func $_D (result i32)\n"
        + "        (i32.const 20))\n"
        + "    (data (i32.const 20) \"\\00\\00\\00\\00\")\n"
        + "    (data (i32.const 24) \"\\24\\00\\00\\00\")\n"
        + "    (data (i32.const 28) \"D.n\\00\")\n"
        + "    (data (i32.const 32) \"Base.m\\00\")\n"
        + "    (data (i32.const 36) \"D\\00\")\n"
        + "\n"
        + "    (func $_STRING0 (result i32)\n"
        + "        (i32.const 40))\n"
        + "    (data (i32.const 40) \"Base\\00\")\n"
        + "    (func $_STRING1 (result i32)\n"
        + "        (i32.const 45))\n"
        + "    (data (i32.const 45) \"D\\00\")\n"
        + "    (func $_STRING2 (result i32)\n"
        + "        (i32.const 47))\n"
        + "    (data (i32.const 47) \"hi\\0A\\00\")\n"
        + "\n";
    assert_eq!(p.finish(), expected);
}

#[test]
fn printer_indents_four_spaces_per_level() {
    let mut p = IndentPrinter::new();
    p.write_line("a");
    p.inc();
    p.inc();
    p.write_line("b");
    p.dec();
    p.write_line("c");
    p.newline();
    assert_eq!(p.finish(), "a\n        b\n    c\n\n");
}
