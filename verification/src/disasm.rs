//! A NASM-syntax listing of machine code, decoded and formatted by iced-x86:
//! one line per instruction, its address in sixteen hex digits, two spaces,
//! then the instruction text.
use vstd::prelude::*;
use iced_x86::{Decoder, DecoderOptions, Instruction, NasmFormatter, Formatter};

verus! {

#[verifier::external_type_specification]
#[verifier::external_body]
pub struct ExDecoder<'a>(Decoder<'a>) where Decoder<'a>: Send + Sync;

#[verifier::external_type_specification]
#[verifier::external_body]
pub struct ExInstruction(Instruction);

#[verifier::external_type_specification]
#[verifier::external_body]
pub struct ExNasmFormatter(NasmFormatter);

/// The configuration and position of a `Decoder`: its bitness, its options,
/// and the address of the next instruction.
#[derive(Debug, Clone, Copy, PartialEq, Eq, Structural)]
pub struct DecoderStatus {
    pub bitness: u32,
    pub options: u32,
    pub ip: u64,
}

/// The bytes a `Decoder` has not decoded yet.
pub uninterp spec fn decoder_bytes(d: Decoder) -> Seq<u8>;

/// The rest of a `Decoder`'s state (see `DecoderStatus`).
pub uninterp spec fn decoder_status(d: Decoder) -> DecoderStatus;

/// How many bytes from the front of `bytes` the decoder takes for one
/// instruction with this bitness and these options.
pub uninterp spec fn decoded_length(bitness: u32, options: u32, bytes: Seq<u8>) -> nat;

/// The address of an `Instruction`.
pub uninterp spec fn instr_ip(i: Instruction) -> u64;

/// The instruction the decoder builds from the front of `bytes`, placed at
/// `ip`, with this bitness and these options.
pub uninterp spec fn decoded_instruction(bitness: u32, options: u32, bytes: Seq<u8>, ip: u64) -> Instruction;

/// Whether a `NasmFormatter` has NASM's default options, no symbol resolver
/// and no options provider.
pub uninterp spec fn nasm_default(f: NasmFormatter) -> bool;

/// The text such a formatter writes for an instruction.
pub uninterp spec fn nasm_text(i: Instruction) -> Seq<char>;

/// `Decoder::new` with no options, at address 0 (it panics on any other
/// bitness than 16, 32 or 64).
#[verifier::external_body]
fn decoder_new<'a>(bitness: u32, bytes: &'a [u8]) -> (d: Decoder<'a>)
    requires
        bitness == 16 || bitness == 32 || bitness == 64,
    ensures
        decoder_bytes(d) == bytes@,
        decoder_status(d) == (DecoderStatus { bitness, options: 0, ip: 0 }),
{
    Decoder::new(bitness, bytes, DecoderOptions::NONE)
}

/// `Decoder::set_ip`: the address of the next instruction.
#[verifier::external_body]
fn decoder_set_ip(d: &mut Decoder, ip: u64)
    ensures
        decoder_bytes(*final(d)) == decoder_bytes(*old(d)),
        decoder_status(*final(d)) == (DecoderStatus { ip, ..decoder_status(*old(d)) }),
{
    d.set_ip(ip)
}

/// `Decoder::can_decode`: whether bytes remain.
#[verifier::external_body]
fn decoder_can_decode(d: &Decoder) -> (r: bool)
    ensures
        r == (decoder_bytes(*d).len() > 0),
{
    d.can_decode()
}

/// `Decoder::decode_out`: overwrites `instr` with the next instruction, which
/// starts at the decoder's address and takes at least one and at most the
/// remaining bytes (an invalid one included); the address moves past them.
/// The instruction is a function of the bitness, the options, the remaining
/// bytes and the address.
#[verifier::external_body]
fn decoder_decode_out(d: &mut Decoder, instr: &mut Instruction)
    requires
        decoder_bytes(*old(d)).len() > 0,
    ensures
        ({
            let st = decoder_status(*old(d));
            let n = decoded_length(st.bitness, st.options, decoder_bytes(*old(d)));
            &&& 1 <= n <= decoder_bytes(*old(d)).len()
            &&& decoder_bytes(*final(d)) == decoder_bytes(*old(d)).skip(n as int)
            &&& decoder_status(*final(d)) == (DecoderStatus { ip: (st.ip + n) as u64, ..st })
            &&& instr_ip(*final(instr)) == st.ip
            &&& *final(instr) == decoded_instruction(st.bitness, st.options, decoder_bytes(*old(d)), st.ip)
        }),
{
    d.decode_out(instr)
}

/// `Instruction::default`.
#[verifier::external_body]
fn instruction_new() -> Instruction {
    Instruction::default()
}

/// `Instruction::ip`: the instruction's address.
#[verifier::external_body]
fn instruction_ip(instr: &Instruction) -> (r: u64)
    ensures
        r == instr_ip(*instr),
{
    instr.ip()
}

/// `NasmFormatter::new`: default options, no symbol resolver, no options
/// provider.
#[verifier::external_body]
fn formatter_new() -> (f: NasmFormatter)
    ensures
        nasm_default(f),
{
    NasmFormatter::new()
}

/// `Formatter::format` into a new string: a formatter with the default
/// configuration writes the instruction's text and keeps its configuration.
/// Not stated: the text itself, which is iced-x86's.
#[verifier::external_body]
fn format_instruction(fmt: &mut NasmFormatter, instr: &Instruction) -> (r: String)
    ensures
        nasm_default(*old(fmt)) ==> r@ == nasm_text(*instr) && nasm_default(*final(fmt)),
{
    let mut text = String::new();
    fmt.format(instr, &mut text);
    text
}

/// The uppercase hex digit of `d` (below 16).
pub open spec fn hex_char(d: int) -> char {
    if d < 10 { (('0' as int) + d) as char } else { (('A' as int) + d - 10) as char }
}

/// The last `n` hex digits of `v`, most significant first.
pub open spec fn hex_digits(v: nat, n: nat) -> Seq<char>
    decreases n,
{
    if n == 0 {
        seq![]
    } else {
        hex_digits(v / 16, (n - 1) as nat).push(hex_char((v % 16) as int))
    }
}

fn hex_digit_str(d: u64) -> (s: &'static str)
    requires
        d < 16,
    ensures
        s@ == seq![hex_char(d as int)],
{
    proof {
        reveal_strlit("0"); reveal_strlit("1"); reveal_strlit("2"); reveal_strlit("3");
        reveal_strlit("4"); reveal_strlit("5"); reveal_strlit("6"); reveal_strlit("7");
        reveal_strlit("8"); reveal_strlit("9"); reveal_strlit("A"); reveal_strlit("B");
        reveal_strlit("C"); reveal_strlit("D"); reveal_strlit("E"); reveal_strlit("F");
    }
    let s = if d == 0 { "0" } else if d == 1 { "1" } else if d == 2 { "2" } else if d == 3 { "3" }
        else if d == 4 { "4" } else if d == 5 { "5" } else if d == 6 { "6" } else if d == 7 { "7" }
        else if d == 8 { "8" } else if d == 9 { "9" } else if d == 10 { "A" } else if d == 11 { "B" }
        else if d == 12 { "C" } else if d == 13 { "D" } else if d == 14 { "E" } else { "F" };
    assert(s@ =~= seq![hex_char(d as int)]);
    s
}

/// The address of a listing line: sixteen uppercase hex digits.
pub fn hex_address(v: u64) -> (s: String)
    ensures
        s@ == hex_digits(v as nat, 16),
{
    let mut digits: Vec<u64> = Vec::new();
    let mut rest: u64 = v;
    let mut k: usize = 0;
    while k < 16
        invariant
            k <= 16,
            digits@.len() == k,
            forall|i: int| 0 <= i < k ==> #[trigger] digits@[i] < 16,
            hex_digits(v as nat, 16) == hex_digits(rest as nat, (16 - k) as nat)
                + Seq::new(k as nat, |i: int| hex_char(digits@[k - 1 - i] as int)),
        decreases 16 - k,
    {
        let ghost old_digits = digits@;
        let ghost old_rest = rest;
        digits.push(rest % 16);
        rest = rest / 16;
        k += 1;
        assert(hex_digits(old_rest as nat, (16 - (k - 1)) as nat)
            == hex_digits(rest as nat, (16 - k) as nat).push(hex_char((old_rest % 16) as int)));
        assert(hex_digits(rest as nat, (16 - k) as nat).push(hex_char((old_rest % 16) as int))
            + Seq::new((k - 1) as nat, |i: int| hex_char(old_digits[k - 2 - i] as int))
            =~= hex_digits(rest as nat, (16 - k) as nat)
            + Seq::new(k as nat, |i: int| hex_char(digits@[k - 1 - i] as int)));
    }
    assert(hex_digits(rest as nat, 0) =~= Seq::<char>::empty());
    let mut s = String::new();
    let mut j: usize = 0;
    while j < 16
        invariant
            j <= 16,
            digits@.len() == 16,
            forall|i: int| 0 <= i < 16 ==> #[trigger] digits@[i] < 16,
            s@ == Seq::new(j as nat, |i: int| hex_char(digits@[15 - i] as int)),
        decreases 16 - j,
    {
        let d = hex_digit_str(digits[15 - j]);
        s.append(d);
        j += 1;
        assert(s@ =~= Seq::new(j as nat, |i: int| hex_char(digits@[15 - i] as int)));
    }
    s
}

/// The addresses of the instructions decoded from `bytes` placed at `ip`
/// with this bitness and these options, in order.
pub open spec fn decoded_addresses(bitness: u32, options: u32, bytes: Seq<u8>, ip: u64) -> Seq<u64>
    decreases bytes.len(),
{
    if bytes.len() == 0 {
        seq![]
    } else {
        let n = decoded_length(bitness, options, bytes);
        if 1 <= n <= bytes.len() {
            seq![ip] + decoded_addresses(bitness, options, bytes.skip(n as int), (ip + n) as u64)
        } else {
            seq![ip]
        }
    }
}

/// The NASM texts of the instructions decoded from `bytes` placed at `ip`
/// with this bitness and these options, in order.
pub open spec fn decoded_texts(bitness: u32, options: u32, bytes: Seq<u8>, ip: u64) -> Seq<Seq<char>>
    decreases bytes.len(),
{
    if bytes.len() == 0 {
        seq![]
    } else {
        let n = decoded_length(bitness, options, bytes);
        let t = nasm_text(decoded_instruction(bitness, options, bytes, ip));
        if 1 <= n <= bytes.len() {
            seq![t] + decoded_texts(bitness, options, bytes.skip(n as int), (ip + n) as u64)
        } else {
            seq![t]
        }
    }
}

/// Listing lines: for each address, its sixteen hex digits, two spaces, the
/// instruction's text and a newline.
pub open spec fn listing_lines(addresses: Seq<u64>, texts: Seq<Seq<char>>) -> Seq<char>
    decreases addresses.len(),
{
    if addresses.len() == 0 || texts.len() == 0 {
        seq![]
    } else {
        listing_lines(addresses.drop_last(), texts.drop_last()) + hex_digits(addresses.last() as nat, 16)
            + "  "@ + texts.last() + "\n"@
    }
}

/// A listing of `bytes` as 64-bit code placed at `ip`: for every decoded
/// instruction, its address in sixteen hex digits, two spaces, the NASM text
/// and a newline.
pub fn disasm(bytes: &[u8], ip: u64) -> (out: String)
    ensures
        out@ == listing_lines(decoded_addresses(64, 0, bytes@, ip), decoded_texts(64, 0, bytes@, ip)),
{
    let mut decoder = decoder_new(64, bytes);
    decoder_set_ip(&mut decoder, ip);
    let ghost all = decoded_addresses(64, 0, bytes@, ip);
    let ghost all_texts = decoded_texts(64, 0, bytes@, ip);
    let mut fmt = formatter_new();
    let mut out = String::new();
    let mut instr = instruction_new();
    let mut budget: usize = bytes.len();
    let ghost mut done: Seq<u64> = seq![];
    let ghost mut texts: Seq<Seq<char>> = seq![];
    while budget > 0 && decoder_can_decode(&decoder)
        invariant
            decoder_bytes(decoder).len() <= budget,
            decoder_status(decoder).bitness == 64,
            decoder_status(decoder).options == 0,
            all == decoded_addresses(64, 0, bytes@, ip),
            all == done + decoded_addresses(64, 0, decoder_bytes(decoder), decoder_status(decoder).ip),
            all_texts == decoded_texts(64, 0, bytes@, ip),
            all_texts == texts + decoded_texts(64, 0, decoder_bytes(decoder), decoder_status(decoder).ip),
            nasm_default(fmt),
            texts.len() == done.len(),
            out@ == listing_lines(done, texts),
        decreases budget,
    {
        let ghost rest = decoder_bytes(decoder);
        let ghost at = decoder_status(decoder).ip;
        decoder_decode_out(&mut decoder, &mut instr);
        let text = format_instruction(&mut fmt, &instr);
        let address = hex_address(instruction_ip(&instr));
        out.append(address.as_str());
        out.append("  ");
        out.append(text.as_str());
        out.append("\n");
        proof {
            assert(decoded_addresses(64, 0, rest, at)
                == seq![at] + decoded_addresses(64, 0, decoder_bytes(decoder), decoder_status(decoder).ip));
            assert(done + decoded_addresses(64, 0, rest, at)
                == done.push(at) + decoded_addresses(64, 0, decoder_bytes(decoder), decoder_status(decoder).ip));
            assert(decoded_texts(64, 0, rest, at)
                == seq![text@] + decoded_texts(64, 0, decoder_bytes(decoder), decoder_status(decoder).ip));
            assert(texts + decoded_texts(64, 0, rest, at)
                == texts.push(text@) + decoded_texts(64, 0, decoder_bytes(decoder), decoder_status(decoder).ip));
            assert(done.push(at).drop_last() == done);
            assert(texts.push(text@).drop_last() == texts);
            done = done.push(at);
            texts = texts.push(text@);
        }
        budget = budget - 1;
    }
    proof {
        assert(decoded_addresses(64, 0, decoder_bytes(decoder), decoder_status(decoder).ip) == Seq::<u64>::empty());
        assert(all == done);
        assert(decoded_texts(64, 0, decoder_bytes(decoder), decoder_status(decoder).ip) == Seq::<Seq<char>>::empty());
        assert(all_texts == texts);
    }
    out
}

} // verus!
