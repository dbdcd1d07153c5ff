use vstd::prelude::*;
use vstd::string::StringSliceAdditionalSpecFns;
use crate::codegen_wast::{AsmTemplate, asm_text};
use crate::ir::{TacFunc, TacProgram, VTbl};
use vstd::utf8::encode_utf8;
use crate::printer::{IndentPrinter, line};
use crate::text::{dec_nat, hex2, push_dec, push_hex2, string_append, string_push};

verus! {

/// `n` rounded up to the next multiple of four.
pub open spec fn round_up4(n: int) -> int {
    (n + 3) / 4 * 4
}

/// Bytes that a NUL-terminated copy of `s` occupies in static data,
/// padded to a four-byte boundary.
pub fn wasm_string_len(s: &str) -> (r: usize)
    requires
        s.spec_bytes().len() + 4 <= usize::MAX,
    ensures
        r == round_up4(s.spec_bytes().len() + 1int),
{
    let n = s.len();
    let m: usize = (n + 1) + 3;
    let r = m & !3usize;
    assert(m & !3usize == m / 4 * 4) by (bit_vector);
    r
}


/// A four-byte little-endian data literal: `"\XX\XX\XX\XX"`, least significant byte first.
pub open spec fn wasm_int_text(n: int) -> Seq<char> {
    seq!['"', '\\'] + hex2(n % 256) + seq!['\\'] + hex2((n / 256) % 256) + seq!['\\'] + hex2(
        (n / 65536) % 256,
    ) + seq!['\\'] + hex2((n / 16777216) % 256) + seq!['"']
}

/// How one byte of a string appears inside a data literal: printable ASCII
/// stands for itself, every other byte is written `\XX`.
pub open spec fn escape_byte(b: u8) -> Seq<char> {
    if 0x20 <= b <= 0x7e {
        seq![b as char]
    } else {
        seq!['\\'] + hex2(b as int)
    }
}

/// The escapes of a sequence of bytes, one after the other.
pub open spec fn escape_bytes(bs: Seq<u8>) -> Seq<char>
    decreases bs.len(),
{
    if bs.len() == 0 {
        Seq::empty()
    } else {
        escape_bytes(bs.drop_last()) + escape_byte(bs.last())
    }
}

/// A NUL-terminated string data literal for the UTF-8 bytes `bs`.
pub open spec fn wasm_string_text(bs: Seq<u8>) -> Seq<char> {
    seq!['"'] + escape_bytes(bs) + seq!['\\', '0', '0', '"']
}

/// Renders `num` as a four-byte little-endian data literal.
pub fn to_wasm_int(num: usize) -> (r: String)
    ensures
        r@ == wasm_int_text(num as int),
{
    let mut r = String::new();
    string_push(&mut r, '"');
    string_push(&mut r, '\\');
    push_hex2(&mut r, (num & 0xFF) as u8);
    string_push(&mut r, '\\');
    push_hex2(&mut r, ((num >> 8) & 0xFF) as u8);
    string_push(&mut r, '\\');
    push_hex2(&mut r, ((num >> 16) & 0xFF) as u8);
    string_push(&mut r, '\\');
    push_hex2(&mut r, ((num >> 24) & 0xFF) as u8);
    string_push(&mut r, '"');
    assert(num & 0xFF == num % 256) by (bit_vector);
    assert((num >> 8) & 0xFF == (num / 256) % 256) by (bit_vector);
    assert((num >> 16) & 0xFF == (num / 65536) % 256) by (bit_vector);
    assert((num >> 24) & 0xFF == (num / 16777216) % 256) by (bit_vector);
    r
}

/// Renders the UTF-8 bytes of `s` as a NUL-terminated data literal.
pub fn to_wasm_string(s: &str) -> (r: String)
    ensures
        r@ == wasm_string_text(s.spec_bytes()),
{
    let mut result = String::new();
    string_push(&mut result, '"');
    let bytes = s.as_bytes();
    let n = bytes.len();
    for i in 0..n
        invariant
            n == bytes@.len(),
            bytes@ == s.spec_bytes(),
            result@ == seq!['"'] + escape_bytes(bytes@.take(i as int)),
    {
        let byte = bytes[i];
        proof {
            assert(bytes@.take(i + 1).drop_last() == bytes@.take(i as int));
        }
        if byte >= 0x20 && byte <= 0x7e {
            string_push(&mut result, byte as char);
        } else {
            string_push(&mut result, '\\');
            push_hex2(&mut result, byte);
        }
    }
    proof {
        assert(bytes@.take(n as int) == bytes@);
    }
    string_push(&mut result, '\\');
    string_push(&mut result, '0');
    string_push(&mut result, '0');
    string_push(&mut result, '"');
    result
}

/// `s`, `n` times over.
pub open spec fn repeat(s: Seq<char>, n: nat) -> Seq<char>
    decreases n,
{
    if n == 0 {
        Seq::empty()
    } else {
        repeat(s, (n - 1) as nat) + s
    }
}

/// The header of a function: its name, one `i32` parameter per parameter,
/// and an `i32` result.
pub open spec fn func_decl(name: Seq<char>, param_num: nat) -> Seq<char> {
    "(func $"@ + name + " ("@ + (if param_num > 0 {
        "param"@ + repeat(" i32)"@, param_num) + " ("@
    } else {
        Seq::empty()
    }) + "result i32)"@
}

/// The declaration of a function's locals.
pub open spec fn locals_decl() -> Seq<char> {
    "(local"@ + repeat(" i32"@, 32) + ")"@
}

/// One line per instruction, at depth `d`.
pub open spec fn asm_lines(f: Seq<AsmTemplate>, d: nat) -> Seq<char>
    decreases f.len(),
{
    if f.len() == 0 {
        Seq::empty()
    } else {
        asm_lines(f.drop_last(), d) + line(d, asm_text(f.last()))
    }
}

/// A function written at depth `d`: its header, its locals when it has
/// registers, its instructions and its closing parenthesis one level deeper,
/// then an empty line.
pub open spec fn func_text(f: Seq<AsmTemplate>, name: Seq<char>, fun: TacFunc, d: nat) -> Seq<char> {
    line(d, func_decl(name, fun.param_num as nat)) + (if fun.max_reg > 0 {
        line(d + 1, locals_decl())
    } else {
        Seq::empty()
    }) + asm_lines(f, d + 1) + line(d + 1, ")"@) + seq!['\n']
}

/// Writes function `fun`, named `name`, with instructions `f`.
pub fn func(f: &[AsmTemplate], name: &str, p: &mut IndentPrinter, fun: &TacFunc)
    requires
        old(p).depth() + 1 <= usize::MAX,
    ensures
        final(p).depth() == old(p).depth(),
        final(p).text() == old(p).text() + func_text(f@, name@, *fun, old(p).depth()),
{
    let ghost t0 = p.text();
    let ghost d = p.depth();
    let mut func_declaration = String::new();
    string_append(&mut func_declaration, "(func $");
    string_append(&mut func_declaration, name);
    string_append(&mut func_declaration, " (");
    let ghost head = func_declaration@;
    if fun.param_num > 0 {
        string_append(&mut func_declaration, "param");
        let mut k: u32 = 0;
        while k < fun.param_num
            invariant
                0 <= k <= fun.param_num,
                func_declaration@ == head + "param"@ + repeat(" i32)"@, k as nat),
            decreases fun.param_num - k,
        {
            string_append(&mut func_declaration, " i32)");
            k = k + 1;
        }
        string_append(&mut func_declaration, " (");
    }
    string_append(&mut func_declaration, "result i32)");
    proof {
        assert(func_declaration@ =~= func_decl(name@, fun.param_num as nat));
    }
    p.write_line(func_declaration.as_str());
    p.inc();
    let ghost t1 = p.text();
    if fun.max_reg > 0 {
        let mut locals = String::new();
        string_append(&mut locals, "(local");
        let mut k: u32 = 0;
        while k < 32
            invariant
                0 <= k <= 32,
                locals@ == "(local"@ + repeat(" i32"@, k as nat),
            decreases 32 - k,
        {
            string_append(&mut locals, " i32");
            k = k + 1;
        }
        string_append(&mut locals, ")");
        p.write_line(locals.as_str());
    }
    let ghost t2 = p.text();
    let n = f.len();
    let mut k: usize = 0;
    proof {
        assert(f@.take(0) =~= Seq::<AsmTemplate>::empty());
    }
    while k < n
        invariant
            0 <= k <= n,
            n == f@.len(),
            p.depth() == d + 1,
            p.text() == t2 + asm_lines(f@.take(k as int), d + 1),
        decreases n - k,
    {
        let s = f[k].fmt();
        p.write_line(s.as_str());
        proof {
            assert(f@.take(k + 1).drop_last() =~= f@.take(k as int));
        }
        k = k + 1;
    }
    proof {
        assert(f@.take(n as int) =~= f@);
    }
    p.write_line(")");
    p.dec();
    p.newline();
}

/// The UTF-8 bytes of a string.
pub open spec fn bytes_of(s: Seq<char>) -> Seq<u8> {
    encode_utf8(s)
}

/// Bytes that the table of `v` takes in static data: the parent pointer,
/// the name pointer, one pointer per method, and the padded name.
pub open spec fn vt_size(v: VTbl) -> int {
    8 + 4 * v.func@.len() + round_up4(bytes_of(v.class@).len() + 1int)
}

/// Bytes that the tables `vs` take, one after the other.
pub open spec fn vt_total(vs: Seq<VTbl>) -> int
    decreases vs.len(),
{
    if vs.len() == 0 {
        0
    } else {
        vt_total(vs.drop_last()) + vt_size(vs.last())
    }
}

/// Bytes that the string constants `ss` take, each with its NUL.
pub open spec fn str_total(ss: Seq<String>) -> int
    decreases ss.len(),
{
    if ss.len() == 0 {
        0
    } else {
        str_total(ss.drop_last()) + bytes_of(ss.last()@).len() + 1
    }
}

/// The program can be written: parents and methods name tables and
/// functions of the program, every class name is in the string pool, the
/// pool holds each string once, and all static data fits in memory offsets.
pub open spec fn program_ok(pr: TacProgram) -> bool {
    &&& forall|k: int| 0 <= k < pr.vtbl@.len() && (#[trigger] pr.vtbl@[k]).parent is Some ==> pr.vtbl@[k].parent.unwrap() < pr.vtbl@.len()
    &&& forall|k: int, j: int|
        0 <= k < pr.vtbl@.len() && 0 <= j < pr.vtbl@[k].func@.len() ==> #[trigger] pr.vtbl@[k].func@[j] < pr.func@.len()
    &&& forall|k: int| 0 <= k < pr.vtbl@.len() ==> exists|i: int| 0 <= i < pr.str_pool@.len() && #[trigger] pr.str_pool@[i]@ == (#[trigger] pr.vtbl@[k]).class@
    &&& forall|i: int, j: int| 0 <= i < j < pr.str_pool@.len() ==> (#[trigger] pr.str_pool@[i])@ != (#[trigger] pr.str_pool@[j])@
    &&& 4 + vt_total(pr.vtbl@) + str_total(pr.str_pool@) <= usize::MAX
}

/// A data segment at offset `o` with contents `payload`.
pub open spec fn data_line(o: int, payload: Seq<char>) -> Seq<char> {
    "(data (i32.const "@ + dec_nat(o as nat) + ") "@ + payload + ")"@
}

/// A function named `$_` and `sym` that returns the address `o`.
pub open spec fn symbol_lines(sym: Seq<char>, o: int, d: nat) -> Seq<char> {
    line(d, "(func $_"@ + sym + " (result i32)"@) + line(d + 1, "(i32.const "@ + dec_nat(o as nat) + "))"@)
}

/// The first `k` method pointers of table `v`, from offset `o` on: each the
/// name of its function as a string literal.
pub open spec fn method_lines(pr: TacProgram, v: VTbl, o: int, d: nat, k: nat) -> Seq<char>
    decreases k,
{
    if k == 0 {
        Seq::empty()
    } else {
        method_lines(pr, v, o, d, (k - 1) as nat) + line(
            d,
            data_line(o + 4 * (k - 1), wasm_string_text(bytes_of(pr.func@[v.func@[k - 1] as int].name@))),
        )
    }
}

/// Table `k`, which starts at offset `4 + vt_total` of the tables before
/// it: its symbol, the pointer to its parent's table (as the parent's
/// offset among the tables), the pointer to its name, its methods, its name.
pub open spec fn vt_text(pr: TacProgram, k: int, d: nat) -> Seq<char> {
    let v = pr.vtbl@[k];
    let o = 4 + vt_total(pr.vtbl@.take(k));
    let len = v.func@.len() as int;
    symbol_lines(v.class@, o, d) + line(
        d,
        data_line(
            o,
            wasm_int_text(
                match v.parent {
                    Some(pa) => vt_total(pr.vtbl@.take(pa as int)),
                    None => 0,
                },
            ),
        ),
    ) + line(d, data_line(o + 4, wasm_int_text(o + 8 + 4 * len))) + method_lines(pr, v, o + 8, d, len as nat) + line(
        d,
        data_line(o + 8 + 4 * len, wasm_string_text(bytes_of(v.class@))),
    )
}

/// The first `k` tables.
pub open spec fn vts_text(pr: TacProgram, k: nat, d: nat) -> Seq<char>
    decreases k,
{
    if k == 0 {
        Seq::empty()
    } else {
        vts_text(pr, (k - 1) as nat, d) + vt_text(pr, k - 1, d)
    }
}

/// String constant `k`, after the tables and the constants before it.
pub open spec fn str_text(pr: TacProgram, k: int, d: nat) -> Seq<char> {
    let o = 4 + vt_total(pr.vtbl@) + str_total(pr.str_pool@.take(k));
    symbol_lines("STRING"@ + dec_nat(k as nat), o, d) + line(d, data_line(o, wasm_string_text(bytes_of(pr.str_pool@[k]@))))
}

/// The first `k` string constants.
pub open spec fn strs_text(pr: TacProgram, k: nat, d: nat) -> Seq<char>
    decreases k,
{
    if k == 0 {
        Seq::empty()
    } else {
        strs_text(pr, (k - 1) as nat, d) + str_text(pr, k - 1, d)
    }
}

/// The start of the module and its static data, written at depth `d`: the
/// module header, the extent of the tables, the tables, the string constants.
pub open spec fn data_text(pr: TacProgram, d: nat) -> Seq<char> {
    line(d, "(module"@) + line(d + 1, "(import \"wasi_unstable\" \"fd_write\" (func $fd_write (param i32 i32 i32 i32) (result i32)))"@)
        + line(d + 1, "(memory 1)"@) + line(d + 1, "(export \"memory\" (memory 0))"@) + line(
        d + 1,
        data_line(0, wasm_int_text(4 + vt_total(pr.vtbl@))),
    ) + vts_text(pr, pr.vtbl@.len(), d + 1) + seq!['\n'] + strs_text(pr, pr.str_pool@.len(), d + 1) + seq!['\n']
}

/// A padded length is a multiple of four, no less than the length, and less
/// than four more than it.
pub proof fn lemma_round_up4(n: int)
    requires
        n >= 0,
    ensures
        round_up4(n) % 4 == 0,
        n <= round_up4(n) <= n + 3,
{
}

proof fn lemma_vt_total(vs: Seq<VTbl>, k: int)
    requires
        0 <= k < vs.len(),
    ensures
        vt_total(vs.take(k + 1)) == vt_total(vs.take(k)) + vt_size(vs[k]),
        vt_size(vs[k]) >= 8 + 4 * vs[k].func@.len() + bytes_of(vs[k].class@).len() + 1,
{
    assert(vs.take(k + 1).drop_last() =~= vs.take(k));
    lemma_round_up4(bytes_of(vs[k].class@).len() + 1int);
}

proof fn lemma_vt_total_mono(vs: Seq<VTbl>, k: int)
    requires
        0 <= k <= vs.len(),
    ensures
        0 <= vt_total(vs.take(k)) <= vt_total(vs),
    decreases vs.len() - k,
{
    lemma_vt_total_nonneg(vs.take(k));
    if k < vs.len() {
        lemma_vt_total(vs, k);
        lemma_vt_total_mono(vs, k + 1);
    } else {
        assert(vs.take(k) =~= vs);
        lemma_vt_total_nonneg(vs);
    }
}

proof fn lemma_vt_total_nonneg(vs: Seq<VTbl>)
    ensures
        vt_total(vs) >= 0,
    decreases vs.len(),
{
    if vs.len() > 0 {
        lemma_vt_total_nonneg(vs.drop_last());
        lemma_round_up4(bytes_of(vs.last().class@).len() + 1int);
    }
}

proof fn lemma_str_total(ss: Seq<String>, k: int)
    requires
        0 <= k < ss.len(),
    ensures
        str_total(ss.take(k + 1)) == str_total(ss.take(k)) + bytes_of(ss[k]@).len() + 1,
{
    assert(ss.take(k + 1).drop_last() =~= ss.take(k));
}

proof fn lemma_str_total_mono(ss: Seq<String>, k: int)
    requires
        0 <= k <= ss.len(),
    ensures
        0 <= str_total(ss.take(k)) <= str_total(ss),
    decreases ss.len() - k,
{
    lemma_str_total_nonneg(ss.take(k));
    if k < ss.len() {
        lemma_str_total(ss, k);
        lemma_str_total_mono(ss, k + 1);
    } else {
        assert(ss.take(k) =~= ss);
        lemma_str_total_nonneg(ss);
    }
}

proof fn lemma_str_total_nonneg(ss: Seq<String>)
    ensures
        str_total(ss) >= 0,
    decreases ss.len(),
{
    if ss.len() > 0 {
        lemma_str_total_nonneg(ss.drop_last());
    }
}

/// The address at which table `k` starts in static data: after the extent
/// word and the tables before it.
pub open spec fn table_addr(pr: TacProgram, k: int) -> int {
    4 + vt_total(pr.vtbl@.take(k))
}

/// A table with a parent starts with its symbol at its own address, followed
/// by its parent word; the parent word plus four is the address that the
/// parent table's own symbol returns. So the parent word names the parent
/// (as its offset among the tables), and tables whose parents start at
/// different addresses get different parent words.
pub proof fn lemma_parent_word(pr: TacProgram, k: int, d: nat)
    requires
        program_ok(pr),
        0 <= k < pr.vtbl@.len(),
        pr.vtbl@[k].parent is Some,
    ensures
        ({
            let pa = pr.vtbl@[k].parent.unwrap() as int;
            let word = vt_total(pr.vtbl@.take(pa));
            let sym = symbol_lines(pr.vtbl@[k].class@, table_addr(pr, k), d);
            let pw = line(d, data_line(table_addr(pr, k), wasm_int_text(word)));
            let psym = symbol_lines(pr.vtbl@[pa].class@, table_addr(pr, pa), d);
            &&& 0 <= pa < pr.vtbl@.len()
            &&& word + 4 == table_addr(pr, pa)
            &&& vt_text(pr, k, d).len() >= sym.len() + pw.len()
            &&& vt_text(pr, k, d).subrange(0, sym.len() as int) == sym
            &&& vt_text(pr, k, d).subrange(sym.len() as int, (sym.len() + pw.len()) as int) == pw
            &&& vt_text(pr, pa, d).len() >= psym.len()
            &&& vt_text(pr, pa, d).subrange(0, psym.len() as int) == psym
        }),
{
    let v = pr.vtbl@[k];
    let pa = v.parent.unwrap() as int;
    let o = table_addr(pr, k);
    let word = vt_total(pr.vtbl@.take(pa));
    let a = symbol_lines(v.class@, o, d);
    let b = line(d, data_line(o, wasm_int_text(word)));
    let t = vt_text(pr, k, d);
    assert(t.subrange(0, a.len() as int) =~= a);
    assert(t.subrange(a.len() as int, (a.len() + b.len()) as int) =~= b);
    let ap = symbol_lines(pr.vtbl@[pa].class@, table_addr(pr, pa), d);
    assert(vt_text(pr, pa, d).subrange(0, ap.len() as int) =~= ap);
}

/// A table's name word, the line after its parent word, holds the address at
/// which the table's name string is written, its last line; that address is
/// past the parent word, the name word and one word per method, and the
/// padded name ends exactly where the next table starts.
pub proof fn lemma_name_word(pr: TacProgram, k: int, d: nat)
    requires
        program_ok(pr),
        0 <= k < pr.vtbl@.len(),
    ensures
        ({
            let v = pr.vtbl@[k];
            let o = table_addr(pr, k);
            let at = o + 8 + 4 * v.func@.len();
            let sym = symbol_lines(v.class@, o, d);
            let pw = line(d, data_line(o, wasm_int_text(match v.parent {
                Some(pa) => vt_total(pr.vtbl@.take(pa as int)),
                None => 0,
            })));
            let nw = line(d, data_line(o + 4, wasm_int_text(at)));
            let name = line(d, data_line(at, wasm_string_text(bytes_of(v.class@))));
            let t = vt_text(pr, k, d);
            &&& t.len() >= sym.len() + pw.len() + nw.len() + name.len()
            &&& t.subrange((sym.len() + pw.len()) as int, (sym.len() + pw.len() + nw.len()) as int) == nw
            &&& t.subrange(t.len() - name.len(), t.len() as int) == name
            &&& at + round_up4(bytes_of(v.class@).len() + 1int) == table_addr(pr, k + 1)
        }),
{
    let v = pr.vtbl@[k];
    let o = table_addr(pr, k);
    let len = v.func@.len() as int;
    let at = o + 8 + 4 * len;
    let a = symbol_lines(v.class@, o, d);
    let b = line(d, data_line(o, wasm_int_text(match v.parent {
        Some(pa) => vt_total(pr.vtbl@.take(pa as int)),
        None => 0,
    })));
    let c = line(d, data_line(o + 4, wasm_int_text(at)));
    let m = method_lines(pr, v, o + 8, d, len as nat);
    let e = line(d, data_line(at, wasm_string_text(bytes_of(v.class@))));
    let t = vt_text(pr, k, d);
    assert(t == a + b + c + m + e);
    assert(t.subrange((a.len() + b.len()) as int, (a.len() + b.len() + c.len()) as int) =~= c);
    assert(t.subrange(t.len() - e.len(), t.len() as int) =~= e);
    lemma_vt_total(pr.vtbl@, k);
}

/// The text of a data segment at offset `o` with contents `payload`.
fn data_line_str(o: usize, payload: &str) -> (r: String)
    ensures
        r@ == data_line(o as int, payload@),
{
    let mut s = String::new();
    string_append(&mut s, "(data (i32.const ");
    push_dec(&mut s, o as u64);
    string_append(&mut s, ") ");
    string_append(&mut s, payload);
    string_append(&mut s, ")");
    s
}

/// Writes a function named `$_` and `sym` that returns the address `o`.
fn write_symbol(p: &mut IndentPrinter, sym: &str, o: usize)
    requires
        old(p).depth() + 1 <= usize::MAX,
    ensures
        final(p).depth() == old(p).depth(),
        final(p).text() == old(p).text() + symbol_lines(sym@, o as int, old(p).depth()),
{
    let mut head = String::new();
    string_append(&mut head, "(func $_");
    string_append(&mut head, sym);
    string_append(&mut head, " (result i32)");
    p.write_line(head.as_str());
    p.inc();
    let mut body = String::new();
    string_append(&mut body, "(i32.const ");
    push_dec(&mut body, o as u64);
    string_append(&mut body, "))");
    p.write_line(body.as_str());
    p.dec();
}


/// Writes table `k` of the program, which starts at `offset`, and gives the
/// offset just past it.
#[verifier::spinoff_prover]
#[verifier::rlimit(40)]
fn write_vtbl(pr: &TacProgram, k: usize, offsets: &Vec<usize>, offset: usize, p: &mut IndentPrinter) -> (next: usize)
    requires
        program_ok(*pr),
        k < pr.vtbl@.len(),
        offsets@.len() == pr.vtbl@.len(),
        forall|j: int| 0 <= j < offsets@.len() ==> #[trigger] offsets@[j] == vt_total(pr.vtbl@.take(j)),
        offset == 4 + vt_total(pr.vtbl@.take(k as int)),
        old(p).depth() + 1 <= usize::MAX,
    ensures
        next == 4 + vt_total(pr.vtbl@.take(k + 1)),
        final(p).depth() == old(p).depth(),
        final(p).text() == old(p).text() + vt_text(*pr, k as int, old(p).depth()),
{
    let ghost t0 = p.text();
    let ghost d = p.depth();
    let v = &pr.vtbl[k];
    let ghost o = offset as int;
    proof {
        lemma_vt_total(pr.vtbl@, k as int);
        lemma_vt_total_mono(pr.vtbl@, k + 1);
        lemma_str_total_nonneg(pr.str_pool@);
        lemma_round_up4(bytes_of(v.class@).len() + 1int);
    }
    let mut offset = offset;
    write_symbol(p, v.class.as_str(), offset);
    let parent_at: usize = match v.parent {
        Some(pa) => {
            proof {
                lemma_vt_total_mono(pr.vtbl@, pa as int);
            }
            offsets[pa as usize]
        },
        None => 0,
    };
    let payload = to_wasm_int(parent_at);
    let l = data_line_str(offset, payload.as_str());
    p.write_line(l.as_str());
    offset = offset + 4;
    let n = v.func.len();
    let payload = to_wasm_int(offset + 4 + n * 4);
    let l = data_line_str(offset, payload.as_str());
    p.write_line(l.as_str());
    offset = offset + 4;
    let ghost t1 = p.text();
    let mut j: usize = 0;
    while j < n
        invariant
            0 <= j <= n,
            n == v.func@.len(),
            *v == pr.vtbl@[k as int],
            k < pr.vtbl@.len(),
            program_ok(*pr),
            o + vt_size(*v) <= usize::MAX,
            vt_size(*v) >= 8 + 4 * n + bytes_of(v.class@).len() + 1,
            offset == o + 8 + 4 * j,
            p.depth() == d,
            d + 1 <= usize::MAX,
            p.text() == t1 + method_lines(*pr, *v, o + 8, d, j as nat),
        decreases n - j,
    {
        let f = v.func[j];
        assert(pr.vtbl@[k as int].func@[j as int] < pr.func@.len());
        let name = to_wasm_string(pr.func[f as usize].name.as_str());
        let l = data_line_str(offset, name.as_str());
        p.write_line(l.as_str());
        offset = offset + 4;
        j = j + 1;
    }
    let name = to_wasm_string(v.class.as_str());
    let l = data_line_str(offset, name.as_str());
    p.write_line(l.as_str());
    let next = offset + wasm_string_len(v.class.as_str());
    proof {
        assert(p.text() =~= t0 + vt_text(*pr, k as int, d));
    }
    next
}

/// The offset of each table among the tables, and the bytes that all of
/// them take.
fn table_offsets(pr: &TacProgram) -> (r: (Vec<usize>, usize))
    requires
        program_ok(*pr),
    ensures
        r.0@.len() == pr.vtbl@.len(),
        forall|j: int| 0 <= j < r.0@.len() ==> #[trigger] r.0@[j] == vt_total(pr.vtbl@.take(j)),
        r.1 == vt_total(pr.vtbl@),
{
    proof {
        lemma_str_total_nonneg(pr.str_pool@);
    }
    let nv = pr.vtbl.len();
    let mut offsets: Vec<usize> = Vec::new();
    let mut offset: usize = 0;
    let mut k: usize = 0;
    proof {
        assert(pr.vtbl@.take(0) =~= Seq::<VTbl>::empty());
    }
    while k < nv
        invariant
            0 <= k <= nv,
            nv == pr.vtbl@.len(),
            4 + vt_total(pr.vtbl@) <= usize::MAX,
            offsets@.len() == k,
            forall|j: int| 0 <= j < k ==> #[trigger] offsets@[j] == vt_total(pr.vtbl@.take(j)),
            offset == vt_total(pr.vtbl@.take(k as int)),
        decreases nv - k,
    {
        let v = &pr.vtbl[k];
        proof {
            lemma_vt_total(pr.vtbl@, k as int);
            lemma_vt_total_mono(pr.vtbl@, k + 1);
            lemma_round_up4(bytes_of(v.class@).len() + 1int);
        }
        let size = 4 + 4 + v.func.len() * 4 + wasm_string_len(v.class.as_str());
        offsets.push(offset);
        offset = offset + size;
        k = k + 1;
    }
    proof {
        assert(pr.vtbl@.take(nv as int) =~= pr.vtbl@);
    }
    (offsets, offset)
}

/// Writes each string constant of the pool, with its symbol, from `offset` on.
fn write_strings(pr: &TacProgram, offset: usize, p: &mut IndentPrinter)
    requires
        program_ok(*pr),
        offset == 4 + vt_total(pr.vtbl@),
        old(p).depth() + 1 <= usize::MAX,
    ensures
        final(p).depth() == old(p).depth(),
        final(p).text() == old(p).text() + strs_text(*pr, pr.str_pool@.len(), old(p).depth()),
{
    let ghost t0 = p.text();
    let ghost d = p.depth();
    let ns = pr.str_pool.len();
    let mut offset = offset;
    let mut i: usize = 0;
    proof {
        assert(pr.str_pool@.take(0) =~= Seq::<String>::empty());
        lemma_vt_total_nonneg(pr.vtbl@);
    }
    while i < ns
        invariant
            0 <= i <= ns,
            ns == pr.str_pool@.len(),
            program_ok(*pr),
            vt_total(pr.vtbl@) >= 0,
            offset == 4 + vt_total(pr.vtbl@) + str_total(pr.str_pool@.take(i as int)),
            p.depth() == d,
            d + 1 <= usize::MAX,
            p.text() == t0 + strs_text(*pr, i as nat, d),
        decreases ns - i,
    {
        proof {
            lemma_str_total(pr.str_pool@, i as int);
            lemma_str_total_mono(pr.str_pool@, i + 1);
        }
        let s = pr.str_pool[i].as_str();
        let mut sym = String::new();
        string_append(&mut sym, "STRING");
        push_dec(&mut sym, i as u64);
        write_symbol(p, sym.as_str(), offset);
        let text = to_wasm_string(s);
        let l = data_line_str(offset, text.as_str());
        p.write_line(l.as_str());
        offset = offset + s.len() + 1;
        i = i + 1;
    }
}

/// Writes the start of the module and its static data: the header, the
/// extent of the tables, each virtual table with its symbol, and each string
/// constant with its symbol. The module stays open one level deeper.
pub fn data(pr: &TacProgram, p: &mut IndentPrinter)
    requires
        program_ok(*pr),
        old(p).depth() + 2 <= usize::MAX,
    ensures
        final(p).depth() == old(p).depth() + 1,
        final(p).text() == old(p).text() + data_text(*pr, old(p).depth()),
{
    let ghost t0 = p.text();
    let ghost d = p.depth();
    p.write_line("(module");
    p.inc();
    p.write_line("(import \"wasi_unstable\" \"fd_write\" (func $fd_write (param i32 i32 i32 i32) (result i32)))");
    p.write_line("(memory 1)");
    p.write_line("(export \"memory\" (memory 0))");
    proof {
        lemma_str_total_nonneg(pr.str_pool@);
    }
    let (offsets, total) = table_offsets(pr);
    let extent = total + 4;
    let mut offset: usize = 0;
    let payload = to_wasm_int(extent);
    let l = data_line_str(offset, payload.as_str());
    p.write_line(l.as_str());
    offset = offset + 4;
    let ghost t1 = p.text();
    let ghost head = line(d, "(module"@) + line(
        d + 1,
        "(import \"wasi_unstable\" \"fd_write\" (func $fd_write (param i32 i32 i32 i32) (result i32)))"@,
    ) + line(d + 1, "(memory 1)"@) + line(d + 1, "(export \"memory\" (memory 0))"@) + line(
        d + 1,
        data_line(0, wasm_int_text(4 + vt_total(pr.vtbl@))),
    );
    assert(t1 =~= t0 + head);
    let nv = pr.vtbl.len();
    let mut k: usize = 0;
    proof {
        assert(pr.vtbl@.take(0) =~= Seq::<VTbl>::empty());
    }
    while k < nv
        invariant
            0 <= k <= nv,
            nv == pr.vtbl@.len(),
            program_ok(*pr),
            offsets@.len() == nv,
            forall|j: int| 0 <= j < nv ==> #[trigger] offsets@[j] == vt_total(pr.vtbl@.take(j)),
            offset == 4 + vt_total(pr.vtbl@.take(k as int)),
            p.depth() == d + 1,
            d + 2 <= usize::MAX,
            p.text() == t1 + vts_text(*pr, k as nat, d + 1),
        decreases nv - k,
    {
        offset = write_vtbl(pr, k, &offsets, offset, p);
        k = k + 1;
    }
    proof {
        assert(pr.vtbl@.take(nv as int) =~= pr.vtbl@);
    }
    let ghost vts = vts_text(*pr, nv as nat, d + 1);
    p.newline();
    let ghost t2 = p.text();
    write_strings(pr, offset, p);
    let ghost strs = strs_text(*pr, pr.str_pool@.len(), d + 1);
    p.newline();
    proof {
        assert(t2 =~= t0 + (head + vts + seq!['\n']));
        assert(p.text() =~= t0 + (head + vts + seq!['\n'] + strs + seq!['\n']));
    }
}

} // verus!
