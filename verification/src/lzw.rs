use vstd::prelude::*;
use vstd::arithmetic::power2::*;
use std::collections::HashMap;

use crate::CodecError;
use crate::bitstream::{BitReader, BitWriter, low_bits, bits_val, bytes_bits, padded_bits};

verus! {

broadcast use vstd::std_specs::hash::group_hash_axioms;

/// Codes start nine bits wide and may grow to twelve.
pub const MIN_CODE_LEN: usize = 9;

pub const MAX_CODE_LEN: usize = 12;

/// One past the largest code: the size of the decode table.
pub const MAX_CODE: u16 = 4096;

/// The code-space bound that goes with the starting width.
pub const START_MAX_CODE: u16 = 512;

/// Resets the dictionary.
pub const CLEAR_CODE: u16 = 256;

/// Marks the end of the data.
pub const EOD_CODE: u16 = 257;

/// First code available for dictionary entries.
pub const START_CODE: u16 = 258;

/// The dictionary key for continuing string `code` with byte `b`.
pub open spec fn lzw_key(code: u16, b: u16) -> u64 {
    ((code as int) * 256 + (b as int)) as u64
}

/// The encoder state machine from position `i` on: follow the dictionary
/// while the string extends, emit the current code when it does not, widen
/// the code when the space fills — never past `MAX_CODE_LEN` — and clear the
/// dictionary when the twelve-bit space fills; finally emit the last code and
/// the end marker. Every code on the wire is 9 to 12 bits wide.
pub open spec fn lzw_enc(
    input: Seq<u8>,
    i: int,
    code: u16,
    next_code: u16,
    code_len: nat,
    maxc: u16,
    dict: Map<u64, u16>,
) -> Seq<bool>
    decreases input.len() - i,
{
    if i < 0 || i >= input.len() {
        // the decoder counts the final code like any other and may widen
        // (below the cap) before it reads the end marker; emit the marker
        // at that width
        let eod_len: nat = if next_code + 1 >= maxc && code_len < MAX_CODE_LEN {
            code_len + 1
        } else {
            code_len
        };
        low_bits(code as u64, code_len) + low_bits(EOD_CODE as u64, eod_len)
    } else {
        let b = input[i] as u16;
        let key = lzw_key(code, b);
        if dict.contains_key(key) {
            lzw_enc(input, i + 1, dict[key], next_code, code_len, maxc, dict)
        } else {
            let dict2 = dict.insert(key, next_code);
            let nc = ((next_code + 1) as int % 0x10000) as u16;
            if nc == maxc {
                if code_len + 1 > MAX_CODE_LEN {
                    low_bits(code as u64, code_len) + low_bits(
                        CLEAR_CODE as u64,
                        code_len,
                    ) + lzw_enc(input, i + 1, b, START_CODE, MIN_CODE_LEN as nat, START_MAX_CODE, Map::empty())
                } else {
                    low_bits(code as u64, code_len) + lzw_enc(
                        input,
                        i + 1,
                        b,
                        nc,
                        code_len + 1,
                        (maxc * 2) as u16,
                        dict2,
                    )
                }
            } else {
                low_bits(code as u64, code_len) + lzw_enc(input, i + 1, b, nc, code_len, maxc, dict2)
            }
        }
    }
}

/// The whole encoded bit stream of an input: an empty input is just the end
/// marker at the starting width.
pub open spec fn lzw_stream(input: Seq<u8>) -> Seq<bool> {
    if input.len() == 0 {
        low_bits(EOD_CODE as u64, MIN_CODE_LEN as nat)
    } else {
        lzw_enc(
            input,
            1,
            input[0] as u16,
            START_CODE,
            MIN_CODE_LEN as nat,
            START_MAX_CODE,
            Map::empty(),
        )
    }
}

/// GIF-style LZW compression of a byte buffer: exactly the bits of
/// `lzw_stream`, padded to whole bytes.
pub fn compress_lzw(bytes: &[u8]) -> (r: Vec<u8>)
    requires
        bytes@.len() * 26 + 64 <= usize::MAX,
    ensures
        bytes_bits(r@) == padded_bits(lzw_stream(bytes@)),
        8 * r@.len() <= 26 * bytes@.len() + 40,
{
    let mut writer = BitWriter::new();
    if bytes.len() == 0 {
        writer.write_bits_u16(EOD_CODE, MIN_CODE_LEN);
        let out0 = writer.get_bytes();
        proof {
            crate::bitstream::lemma_bytes_bits_len(out0@);
        }
        return out0;
    }
    let mut code_len: usize = MIN_CODE_LEN;
    let mut curr_max_code: u16 = START_MAX_CODE;
    let mut table: HashMap<u64, u16> = HashMap::new();
    let mut code: u16 = bytes[0] as u16;
    let mut next_code: u16 = START_CODE;
    let mut i: usize = 1;
    proof {
        lemma2_to64();
    }
    while i < bytes.len()
        invariant
            1 <= i <= bytes@.len(),
            bytes@.len() * 26 + 64 <= usize::MAX,
            writer.wf(),
            writer.bits().len() <= 26 * i,
            9 <= code_len <= 12,
            curr_max_code as nat == pow2(code_len as nat),
            258 <= next_code < curr_max_code,
            lzw_stream(bytes@) == writer.bits() + lzw_enc(
                bytes@,
                i as int,
                code,
                next_code,
                code_len as nat,
                curr_max_code,
                table@,
            ),
        decreases bytes@.len() - i,
    {
        proof {
            lemma2_to64();
            if code_len > 9 {
                lemma_pow2_strictly_increases(9, code_len as nat);
            }
            assert(26 * i + 26 <= 26 * bytes@.len()) by (nonlinear_arith)
                requires
                    i < bytes@.len(),
            ;
        }
        let b: u16 = bytes[i] as u16;
        let key: u64 = (code as u64) * 256 + (b as u64);
        let nxt: Option<u16> = match table.get(&key) {
            Some(n) => Some(*n),
            None => None,
        };
        match nxt {
            Some(n) => {
                code = n;
            },
            None => {
                writer.write_bits_u16(code, code_len);
                table.insert(key, next_code);
                code = b;
                next_code = next_code + 1;
                if next_code == curr_max_code {
                    if code_len < MAX_CODE_LEN {
                        code_len = code_len + 1;
                        proof {
                            lemma_pow2_unfold(code_len as nat);
                        }
                        curr_max_code = curr_max_code * 2;
                    } else {
                        writer.write_bits_u16(CLEAR_CODE, code_len);
                        code_len = MIN_CODE_LEN;
                        curr_max_code = START_MAX_CODE;
                        next_code = START_CODE;
                        table.clear();
                        proof {
                            assert(table@ =~= Map::<u64, u16>::empty());
                        }
                    }
                }
            },
        }
        i = i + 1;
        proof {
            assert(lzw_stream(bytes@) == writer.bits() + lzw_enc(
                bytes@,
                i as int,
                code,
                next_code,
                code_len as nat,
                curr_max_code,
                table@,
            ));
        }
    }
    proof {
        lemma2_to64();
        if code_len > 9 {
            lemma_pow2_strictly_increases(9, code_len as nat);
        }
        assert(26 * i + 26 <= 26 * bytes@.len() + 26) by (nonlinear_arith)
            requires
                i <= bytes@.len(),
        ;
    }
    writer.write_bits_u16(code, code_len);
    let eod_len: usize = if next_code + 1 >= curr_max_code && code_len < MAX_CODE_LEN {
        code_len + 1
    } else {
        code_len
    };
    writer.write_bits_u16(EOD_CODE, eod_len);
    proof {
        assert(writer.bits() =~= lzw_stream(bytes@));
    }
    let out = writer.get_bytes();
    proof {
        crate::bitstream::lemma_bytes_bits_len(out@);
        assert(padded_bits(writer.bits()).len() <= writer.bits().len() + 7);
    }
    out
}

/// One decode-table slot: the previous code in the chain and this entry's
/// final byte.
#[derive(Clone, Copy, Debug, PartialEq, Eq, Structural)]
pub struct LZWEDecompressionTableData {
    pub prev: u16,
    pub byte: u8,
}

impl LZWEDecompressionTableData {
    pub fn new() -> (r: Self)
        ensures
            r.prev == 0 && r.byte == 0,
    {
        LZWEDecompressionTableData { prev: 0, byte: 0 }
    }
}

/// The fresh decode table: the byte codes map to themselves, everything else
/// is blank.
pub open spec fn spec_fresh_table() -> Seq<LZWEDecompressionTableData> {
    Seq::new(4096, |c: int| LZWEDecompressionTableData {
        prev: 0,
        byte: if c < 256 {
            c as u8
        } else {
            0
        },
    })
}

/// The string a code stands for: walk the prev-chain down to a byte code,
/// collecting each entry's final byte. Chains that do not strictly descend
/// stand for nothing.
pub open spec fn chain_str(t: Seq<LZWEDecompressionTableData>, c: int) -> Seq<u8>
    decreases c,
{
    if !(0 <= c < t.len()) {
        Seq::empty()
    } else if c <= 255 {
        seq![t[c].byte]
    } else if t[c].prev < c {
        chain_str(t, t[c].prev as int) + seq![t[c].byte]
    } else {
        Seq::empty()
    }
}

/// The first byte of a code's string.
pub open spec fn chain_first(t: Seq<LZWEDecompressionTableData>, c: int) -> u8
    decreases c,
{
    if !(0 <= c < t.len()) {
        0
    } else if c <= 255 {
        t[c].byte
    } else if t[c].prev < c {
        chain_first(t, t[c].prev as int)
    } else {
        0
    }
}

/// The decoder state machine: read a code at the current width (a short read
/// is an unexpected end of input), stop at the end marker, reset on a clear
/// code, reject codes from the future, and otherwise point the pending entry
/// at this code, complete the previous entry with this string's first byte,
/// and emit the string. The width never grows past `MAX_CODE_LEN`.
pub open spec fn lzw_dec(
    bits: Seq<bool>,
    t: Seq<LZWEDecompressionTableData>,
    next_code: u16,
    code_len: nat,
    maxc: u16,
) -> Result<Seq<u8>, CodecError>
    decreases bits.len(),
{
    if bits.len() < code_len || code_len == 0 {
        Err(CodecError::UnexpectedEof)
    } else {
        let code = bits_val(bits.take(code_len as int)) as u16;
        let rest = bits.skip(code_len as int);
        if code == EOD_CODE {
            Ok(Seq::empty())
        } else if code == CLEAR_CODE {
            lzw_dec(rest, spec_fresh_table(), START_CODE, MIN_CODE_LEN as nat, START_MAX_CODE)
        } else if code >= next_code {
            Err(CodecError::CorruptStream)
        } else if next_code >= MAX_CODE {
            Err(CodecError::CorruptStream)
        } else {
            let t1 = t.update(
                next_code as int,
                LZWEDecompressionTableData { prev: code, byte: t[next_code as int].byte },
            );
            let first = chain_first(t1, code as int);
            let t2 = t1.update(
                next_code as int - 1,
                LZWEDecompressionTableData { prev: t1[next_code as int - 1].prev, byte: first },
            );
            let emitted = chain_str(t2, code as int);
            let nc2 = (next_code + 1) as u16;
            let bump = nc2 >= maxc && code_len < MAX_CODE_LEN;
            let cl2: nat = if bump {
                code_len + 1
            } else {
                code_len
            };
            let mc2: u16 = if bump {
                (maxc * 2) as u16
            } else {
                maxc
            };
            match lzw_dec(rest, t2, nc2, cl2, mc2) {
                Ok(more) => Ok(emitted + more),
                Err(e) => Err(e),
            }
        }
    }
}

/// A fresh decode table as a vector.
pub fn new_lzw_decompression_table() -> (r: Vec<LZWEDecompressionTableData>)
    ensures
        r@ == spec_fresh_table(),
{
    let mut table: Vec<LZWEDecompressionTableData> = Vec::new();
    let mut c: usize = 0;
    while c < 4096
        invariant
            c <= 4096,
            table@.len() == c,
            forall|j: int|
                0 <= j < c ==> (#[trigger] table@[j]) == spec_fresh_table()[j],
        decreases 4096 - c,
    {
        let byte: u8 = if c < 256 {
            c as u8
        } else {
            0
        };
        table.push(LZWEDecompressionTableData { prev: 0, byte });
        c = c + 1;
    }
    proof {
        assert(table@ =~= spec_fresh_table());
    }
    table
}

/// GIF-style LZW decompression: exactly the decoder state machine run over
/// the input's bits from a fresh table.
pub fn decompress_lzw(encoded_bytes: &[u8]) -> (r: Result<Vec<u8>, CodecError>)
    requires
        encoded_bytes@.len() <= usize::MAX as nat / 8,
    ensures
        match lzw_dec(
            bytes_bits(encoded_bytes@),
            spec_fresh_table(),
            START_CODE,
            MIN_CODE_LEN as nat,
            START_MAX_CODE,
        ) {
            Ok(s) => r matches Ok(v) && v@ == s,
            Err(e) => r == Result::<Vec<u8>, CodecError>::Err(e),
        },
{
    let mut reader = BitReader::new(encoded_bytes);
    let mut decoded_bytes: Vec<u8> = Vec::new();
    let mut code_len: usize = MIN_CODE_LEN;
    let mut curr_max_code: u16 = START_MAX_CODE;
    let mut table: Vec<LZWEDecompressionTableData> = new_lzw_decompression_table();
    let mut next_code: u16 = START_CODE;
    let ghost bits0 = reader.rem_bits();
    proof {
        lemma2_to64();
        match lzw_dec(bits0, spec_fresh_table(), START_CODE, MIN_CODE_LEN as nat, START_MAX_CODE) {
            Ok(m) => {
                assert(decoded_bytes@ + m =~= m);
            },
            Err(e) => {},
        }
    }
    loop
        invariant
            bits0 == bytes_bits(encoded_bytes@),
            reader.wf(),
            table@.len() == 4096,
            9 <= code_len <= 12,
            258 <= next_code <= 4096,
            curr_max_code as nat == pow2(code_len as nat),
            forall|j: int| 256 <= j < 4096 ==> (#[trigger] table@[j]).prev < j,
            forall|j: int| 0 <= j < 256 ==> (#[trigger] table@[j]).byte == j as u8,
            match lzw_dec(reader.rem_bits(), table@, next_code, code_len as nat, curr_max_code) {
                Ok(more) => lzw_dec(
                    bits0,
                    spec_fresh_table(),
                    START_CODE,
                    MIN_CODE_LEN as nat,
                    START_MAX_CODE,
                ) == Result::<Seq<u8>, CodecError>::Ok(decoded_bytes@ + more),
                Err(e) => lzw_dec(
                    bits0,
                    spec_fresh_table(),
                    START_CODE,
                    MIN_CODE_LEN as nat,
                    START_MAX_CODE,
                ) == Result::<Seq<u8>, CodecError>::Err(e),
            },
        decreases reader.rem_bits().len(),
    {
        let ghost scur = reader.rem_bits();
        let code: u16 = match reader.read_bits_into_u16(code_len) {
            Some(c) => c,
            None => {
                return Err(CodecError::UnexpectedEof);
            },
        };
        proof {
            crate::bitstream::lemma_bits_val_bound(scur.take(code_len as int));
            lemma2_to64();
        }
        if code == EOD_CODE {
            proof {
                assert(decoded_bytes@ + Seq::<u8>::empty() =~= decoded_bytes@);
            }
            return Ok(decoded_bytes);
        }
        if code == CLEAR_CODE {
            table = new_lzw_decompression_table();
            code_len = MIN_CODE_LEN;
            curr_max_code = START_MAX_CODE;
            next_code = START_CODE;
            proof {
                lemma2_to64();
                assert forall|j: int| 256 <= j < 4096 implies (#[trigger] table@[j]).prev < j by {
                    assert(table@[j] == spec_fresh_table()[j]);
                }
            }
            continue ;
        }
        if code >= next_code {
            return Err(CodecError::CorruptStream);
        }
        if next_code >= MAX_CODE {
            return Err(CodecError::CorruptStream);
        }
        // point the pending entry at this code
        let oldbyte = table[next_code as usize].byte;
        table.set(
            next_code as usize,
            LZWEDecompressionTableData { prev: code, byte: oldbyte },
        );
        let ghost t1 = table@;
        // first byte of this code's string
        let mut curr: u16 = code;
        while curr > 255
            invariant
                table@ == t1,
                table@.len() == 4096,
                curr < next_code,
                next_code < 4096,
                forall|j: int| 256 <= j < 4096 ==> (#[trigger] table@[j]).prev < j,
                chain_first(t1, code as int) == chain_first(t1, curr as int),
            decreases curr,
        {
            curr = table[curr as usize].prev;
        }
        let first: u8 = table[curr as usize].byte;
        proof {
            assert(first == chain_first(t1, code as int));
        }
        // complete the previous entry with it
        let prevkeep = table[(next_code - 1) as usize].prev;
        table.set(
            (next_code - 1) as usize,
            LZWEDecompressionTableData { prev: prevkeep, byte: first },
        );
        let ghost t2 = table@;
        // emit this code's string: collect the chain, then reverse it
        let mut stack: Vec<u8> = Vec::new();
        let mut curr2: u16 = code;
        while curr2 > 255
            invariant
                table@ == t2,
                table@.len() == 4096,
                curr2 < next_code,
                next_code < 4096,
                forall|j: int| 256 <= j < 4096 ==> (#[trigger] table@[j]).prev < j,
                chain_str(t2, code as int) == chain_str(t2, curr2 as int) + stack@.reverse(),
            decreases curr2,
        {
            let by = table[curr2 as usize].byte;
            let ghost prestack = stack@;
            stack.push(by);
            proof {
                assert(stack@.reverse() =~= seq![by] + prestack.reverse());
                assert(chain_str(t2, curr2 as int) == chain_str(
                    t2,
                    t2[curr2 as int].prev as int,
                ) + seq![by]);
                assert(chain_str(t2, t2[curr2 as int].prev as int) + (seq![by] + prestack.reverse())
                    =~= (chain_str(t2, t2[curr2 as int].prev as int) + seq![by])
                    + prestack.reverse());
            }
            curr2 = table[curr2 as usize].prev;
        }
        let by0 = table[curr2 as usize].byte;
        let ghost prestack = stack@;
        stack.push(by0);
        proof {
            assert(stack@.reverse() =~= seq![by0] + prestack.reverse());
            assert(chain_str(t2, curr2 as int) =~= seq![by0]);
            assert(chain_str(t2, code as int) =~= stack@.reverse());
        }
        let ghost preout = decoded_bytes@;
        let mut k: usize = stack.len();
        while k > 0
            invariant
                k <= stack@.len(),
                decoded_bytes@ == preout + stack@.reverse().take(stack@.len() - k),
            decreases k,
        {
            k = k - 1;
            let by = stack[k];
            decoded_bytes.push(by);
            proof {
                assert(stack@.reverse().take(stack@.len() - k) =~= stack@.reverse().take(
                    stack@.len() - (k + 1),
                ).push(stack@[k as int]));
            }
        }
        proof {
            assert(stack@.reverse().take(stack@.len() as int) =~= stack@.reverse());
            assert(decoded_bytes@ == preout + chain_str(t2, code as int));
        }
        next_code = next_code + 1;
        if next_code >= curr_max_code && code_len < MAX_CODE_LEN {
            code_len = code_len + 1;
            proof {
                lemma_pow2_unfold(code_len as nat);
                lemma2_to64();
            }
            curr_max_code = curr_max_code * 2;
        }
        proof {
            lemma2_to64();
            match lzw_dec(reader.rem_bits(), table@, next_code, code_len as nat, curr_max_code) {
                Ok(more) => {
                    assert(preout + (chain_str(t2, code as int) + more) =~= decoded_bytes@ + more);
                },
                Err(e) => {},
            }
        }
    }
}

/// An empty input's stream — the end marker alone, padded — decodes back to
/// the empty output.
pub proof fn lemma_lzw_empty_round_trip()
    ensures
        lzw_dec(
            padded_bits(lzw_stream(Seq::empty())),
            spec_fresh_table(),
            START_CODE,
            MIN_CODE_LEN as nat,
            START_MAX_CODE,
        ) == Result::<Seq<u8>, CodecError>::Ok(Seq::empty()),
{
    lemma2_to64();
    let stream = lzw_stream(Seq::<u8>::empty());
    let bits = padded_bits(stream);
    assert(stream =~= low_bits(EOD_CODE as u64, MIN_CODE_LEN as nat));
    assert(bits.take(9) =~= low_bits(EOD_CODE as u64, MIN_CODE_LEN as nat));
    crate::bitstream::lemma_bits_val_low_bits(EOD_CODE as u64, MIN_CODE_LEN as nat);
}

/// A code whose prev-chain descends through defined entries to a byte code.
pub open spec fn chain_ok(t: Seq<LZWEDecompressionTableData>, c: int) -> bool
    decreases c,
{
    &&& 0 <= c < t.len()
    &&& (c <= 255 || (c > 257 && t[c].prev < c && chain_ok(t, t[c].prev as int)))
}

proof fn lemma_chain_facts(t: Seq<LZWEDecompressionTableData>, c: int)
    requires
        chain_ok(t, c),
    ensures
        chain_str(t, c).len() >= 1,
        chain_str(t, c)[0] == chain_first(t, c),
    decreases c,
{
    if c > 255 {
        lemma_chain_facts(t, t[c].prev as int);
    }
}

/// Updating slots above `c` touches nothing a chain from `c` reads.
proof fn lemma_chain_update_above(
    t: Seq<LZWEDecompressionTableData>,
    k: int,
    e: LZWEDecompressionTableData,
    c: int,
)
    requires
        0 <= c < k < t.len(),
    ensures
        chain_str(t.update(k, e), c) == chain_str(t, c),
        chain_first(t.update(k, e), c) == chain_first(t, c),
        chain_ok(t.update(k, e), c) == chain_ok(t, c),
    decreases c,
{
    let t2 = t.update(k, e);
    if 0 <= c < t.len() && c > 255 && t[c].prev < c {
        lemma_chain_update_above(t, k, e, t[c].prev as int);
    }
}

/// The string table a fresh decoder state denotes: byte codes stand for
/// themselves, nothing else stands for anything yet.
pub open spec fn fresh_strs() -> Seq<Seq<u8>> {
    Seq::new(4096, |c: int| if c < 256 {
        seq![c as u8]
    } else {
        Seq::empty()
    })
}

proof fn lemma_fresh_chains()
    ensures
        forall|c: int|
            0 <= c <= 255 ==> #[trigger] chain_ok(spec_fresh_table(), c) && chain_str(
                spec_fresh_table(),
                c,
            ) == fresh_strs()[c],
{
    assert forall|c: int|
        0 <= c <= 255 implies #[trigger] chain_ok(spec_fresh_table(), c) && chain_str(
        spec_fresh_table(),
        c,
    ) == fresh_strs()[c] by {
        assert(spec_fresh_table()[c].byte == c as u8);
        assert(chain_str(spec_fresh_table(), c) =~= seq![c as u8]);
    }
}

/// The simulation invariant between the encoder state and the decoder state:
/// `strs` names the string each live code stands for on both sides, the
/// decoder's chains spell those strings, its pending entry points at the last
/// emitted code and will be completed with the current string's first byte,
/// and the current code covers `input[j..i]`.
pub open spec fn lzw_sim_inv(
    input: Seq<u8>,
    i: int,
    j: int,
    code: u16,
    nc: u16,
    cl: nat,
    mc: u16,
    dict: Map<u64, u16>,
    t: Seq<LZWEDecompressionTableData>,
    strs: Seq<Seq<u8>>,
) -> bool {
    &&& 0 <= j < i <= input.len()
    &&& strs.len() == 4096
    &&& (forall|c: int| 0 <= c <= 255 ==> #[trigger] strs[c] == seq![c as u8])
    &&& (code <= 255 || 258 <= code < nc)
    &&& strs[code as int] == input.subrange(j, i)
    &&& (forall|k: u64|
        #[trigger] dict.contains_key(k) ==> {
            let c = (k / 256) as int;
            let b = (k % 256) as int;
            &&& 258 <= dict[k] < nc
            &&& c < 4096
            &&& (c <= 255 || 258 <= c < dict[k])
            &&& strs[dict[k] as int] == strs[c] + seq![b as u8]
        })
    &&& 258 <= nc < mc
    &&& mc as nat == pow2(cl)
    &&& 9 <= cl <= 12
    &&& t.len() == 4096
    &&& (forall|c: int| 0 <= c <= 255 ==> (#[trigger] t[c]).byte == c as u8)
    &&& (forall|c: int|
        0 <= c <= 255 || 258 <= c <= nc - 2 ==> #[trigger] chain_ok(t, c) && chain_str(t, c)
            == strs[c])
    &&& (nc >= 259 ==> {
        let p = t[nc - 1].prev as int;
        &&& p < nc - 1
        &&& (p <= 255 || 258 <= p <= nc - 2)
        &&& strs[nc - 1] == strs[p] + seq![input[j]]
    })
}

/// One decoder step undoes one encoder emission, and so on to the end of the
/// input: from any pair of states in simulation, decoding the encoder's
/// remaining output yields exactly the input bytes not yet decoded.
proof fn lemma_lzw_sim(
    input: Seq<u8>,
    i: int,
    j: int,
    code: u16,
    nc: u16,
    cl: nat,
    mc: u16,
    dict: Map<u64, u16>,
    t: Seq<LZWEDecompressionTableData>,
    strs: Seq<Seq<u8>>,
    pad: Seq<bool>,
)
    requires
        lzw_sim_inv(input, i, j, code, nc, cl, mc, dict, t, strs),
    ensures
        lzw_dec(lzw_enc(input, i, code, nc, cl, mc, dict) + pad, t, nc, cl, mc) == Result::<
            Seq<u8>,
            CodecError,
        >::Ok(input.skip(j)),
    decreases input.len() - i,
{
    lemma2_to64();
    lemma2_to64_rest();
    let enc = lzw_enc(input, i, code, nc, cl, mc, dict);
    let bits = enc + pad;

    if i < input.len() && dict.contains_key(lzw_key(code, input[i] as u16)) {
        // the dictionary extends the current string; nothing is emitted
        let b = input[i] as u16;
        let key = lzw_key(code, b);
        vstd::arithmetic::div_mod::lemma_fundamental_div_mod_converse(
            key as int,
            256,
            code as int,
            b as int,
        );
        assert(strs[dict[key] as int] =~= input.subrange(j, i + 1)) by {
            assert(strs[dict[key] as int] == strs[code as int] + seq![input[i]]);
        }
        lemma_lzw_sim(input, i + 1, j, dict[key], nc, cl, mc, dict, t, strs, pad);
    } else {
        // the current code is emitted and the decoder processes it
        assert(bits.take(cl as int) =~= low_bits(code as u64, cl));
        crate::bitstream::lemma_bits_val_low_bits(code as u64, cl);
        let rest = bits.skip(cl as int);
        assert(bits.len() >= cl);
        let w = bits_val(bits.take(cl as int)) as u16;
        assert(w == code);

        // the decoder's table updates
        let t1 = t.update(
            nc as int,
            LZWEDecompressionTableData { prev: code, byte: t[nc as int].byte },
        );
        let first = chain_first(t1, code as int);
        let t2 = t1.update(
            nc as int - 1,
            LZWEDecompressionTableData { prev: t1[nc as int - 1].prev, byte: first },
        );
        let emitted = chain_str(t2, code as int);

        // the emitted string is the current string, and `first` its first byte
        assert(strs[code as int].len() >= 1);
        if code as int <= nc - 2 {
            lemma_chain_update_above(t, nc as int, t1[nc as int], code as int);
            lemma_chain_update_above(t1, nc as int - 1, t2[nc as int - 1], code as int);
            lemma_chain_facts(t, code as int);
            assert(emitted == strs[code as int]);
            assert(first == chain_first(t, code as int));
            assert(first == strs[code as int][0]);
        } else {
            // the self-reference case: the code names the pending entry
            assert(code as int == nc - 1);
            assert(nc >= 259);
            let p = t[nc as int - 1].prev as int;
            lemma_chain_update_above(t, nc as int, t1[nc as int], p);
            lemma_chain_update_above(t1, nc as int - 1, t2[nc as int - 1], p);
            lemma_chain_facts(t, p);
            assert(t1[nc as int - 1] == t[nc as int - 1]);
            assert(first == chain_first(t1, p));
            assert(first == chain_first(t, p));
            assert(first == strs[p][0]);
            assert(strs[code as int][0] == strs[p][0]);
            assert(first == strs[code as int][0]);
            assert(chain_ok(t2, code as int)) by {
                assert(chain_ok(t2, p));
                assert(t2[nc as int - 1].prev == p as u16);
            }
            assert(emitted == chain_str(t2, p) + seq![first]);
            assert(chain_str(t2, p) == strs[p]);
            assert(emitted =~= strs[code as int]);
        }
        assert(first == input[j]);

        // counters advance in lockstep
        let nc2 = (nc + 1) as u16;
        let bump = nc2 >= mc && cl < MAX_CODE_LEN;
        let cl2: nat = if bump {
            cl + 1
        } else {
            cl
        };
        let mc2: u16 = if bump {
            (mc * 2) as u16
        } else {
            mc
        };
        lemma_pow2_unfold(cl + 1);

        if i >= input.len() {
            // final code: the end marker follows at the decoder's new width
            assert(enc =~= low_bits(code as u64, cl) + low_bits(EOD_CODE as u64, cl2));
            assert(rest =~= low_bits(EOD_CODE as u64, cl2) + pad);
            assert(rest.take(cl2 as int) =~= low_bits(EOD_CODE as u64, cl2));
            crate::bitstream::lemma_bits_val_low_bits(EOD_CODE as u64, cl2);
            if cl2 > 9 {
                lemma_pow2_strictly_increases(9, cl2);
            }
            assert(bits_val(rest.take(cl2 as int)) as u16 == EOD_CODE);
            assert(lzw_dec(rest, t2, nc2, cl2, mc2) == Result::<Seq<u8>, CodecError>::Ok(
                Seq::empty(),
            ));
            assert(emitted + Seq::<u8>::empty() =~= emitted);
            assert(input.subrange(j, i) =~= input.skip(j));
        } else {
            // a miss: the encoder records the extension and starts over at b
            let b = input[i] as u16;
            let key = lzw_key(code, b);
            let dict2 = dict.insert(key, nc);
            let strs2 = strs.update(nc as int, strs[code as int] + seq![input[i]]);

            // the new dictionary entry is sound
            vstd::arithmetic::div_mod::lemma_fundamental_div_mod_converse(
                key as int,
                256,
                code as int,
                b as int,
            );
            assert forall|k: u64| #[trigger] dict2.contains_key(k) implies {
                let c = (k / 256) as int;
                let bb = (k % 256) as int;
                &&& 258 <= dict2[k] < nc2
                &&& c < 4096
                &&& (c <= 255 || 258 <= c < dict2[k])
                &&& strs2[dict2[k] as int] == strs2[c] + seq![bb as u8]
            } by {
                if k == key {
                    assert(strs2[nc as int] == strs2[code as int] + seq![b as u8]);
                } else {
                    assert(dict.contains_key(k));
                    assert(strs2[dict[k] as int] == strs[dict[k] as int]);
                    assert(strs2[(k / 256) as int] == strs[(k / 256) as int]);
                }
            }

            // the decoder's chains now spell the updated strings
            assert forall|c: int|
                0 <= c <= 255 || 258 <= c <= nc2 - 2 implies #[trigger] chain_ok(t2, c)
                    && chain_str(t2, c) == strs2[c] by {
                if c <= nc - 2 {
                    lemma_chain_update_above(t, nc as int, t1[nc as int], c);
                    lemma_chain_update_above(t1, nc as int - 1, t2[nc as int - 1], c);
                } else {
                    assert(c == nc - 1);
                    assert(nc >= 259);
                    let p = t[nc as int - 1].prev as int;
                    lemma_chain_update_above(t, nc as int, t1[nc as int], p);
                    lemma_chain_update_above(t1, nc as int - 1, t2[nc as int - 1], p);
                    assert(chain_ok(t2, p) && chain_str(t2, p) == strs[p]);
                    assert(t2[c].prev == p as u16 && t2[c].byte == first);
                    assert(chain_ok(t2, c));
                    assert(chain_str(t2, c) == strs[p] + seq![first]);
                    assert(chain_str(t2, c) == strs[c]);
                    assert(strs2[c] == strs[c]);
                }
            }

            if nc2 == mc {
                if cl + 1 > MAX_CODE_LEN {
                    // both sides clear: the decoder reads the clear code at
                    // the widened width and resets
                    let encC = lzw_enc(
                        input,
                        i + 1,
                        b,
                        START_CODE,
                        MIN_CODE_LEN as nat,
                        START_MAX_CODE,
                        Map::empty(),
                    );
                    assert(cl == MAX_CODE_LEN && cl2 == cl);
                    assert(enc =~= low_bits(code as u64, cl) + low_bits(CLEAR_CODE as u64, cl)
                        + encC);
                    assert(rest =~= low_bits(CLEAR_CODE as u64, cl) + (encC + pad));
                    assert(rest.take(cl2 as int) =~= low_bits(CLEAR_CODE as u64, cl2));
                    crate::bitstream::lemma_bits_val_low_bits(CLEAR_CODE as u64, cl2);
                    lemma_pow2_strictly_increases(9, cl2);
                    assert(bits_val(rest.take(cl2 as int)) as u16 == CLEAR_CODE);
                    assert(rest.skip(cl2 as int) =~= encC + pad);
                    lemma_fresh_chains();
                    assert(fresh_strs()[b as int] =~= input.subrange(i, i + 1));
                    assert(lzw_sim_inv(
                        input,
                        i + 1,
                        i,
                        b,
                        START_CODE,
                        MIN_CODE_LEN as nat,
                        START_MAX_CODE,
                        Map::empty(),
                        spec_fresh_table(),
                        fresh_strs(),
                    ));
                    lemma_lzw_sim(
                        input,
                        i + 1,
                        i,
                        b,
                        START_CODE,
                        MIN_CODE_LEN as nat,
                        START_MAX_CODE,
                        Map::empty(),
                        spec_fresh_table(),
                        fresh_strs(),
                        pad,
                    );
                } else {
                    assert(enc =~= low_bits(code as u64, cl) + lzw_enc(
                        input,
                        i + 1,
                        b,
                        nc2,
                        cl + 1,
                        (mc * 2) as u16,
                        dict2,
                    ));
                    assert(rest =~= lzw_enc(input, i + 1, b, nc2, cl + 1, (mc * 2) as u16, dict2)
                        + pad);
                    assert(strs2[b as int] =~= input.subrange(i, i + 1));
                    assert(strs2[nc2 - 1] == strs2[t2[nc2 - 1].prev as int] + seq![input[i]]) by {
                        assert(t2[nc as int].prev == code);
                        assert(strs2[nc as int] == strs[code as int] + seq![input[i]]);
                        assert(strs2[code as int] == strs[code as int]);
                    }
                    assert(lzw_sim_inv(input, i + 1, i, b, nc2, cl + 1, mc2, dict2, t2, strs2));
                    lemma_lzw_sim(input, i + 1, i, b, nc2, cl + 1, mc2, dict2, t2, strs2, pad);
                }
            } else {
                assert(enc =~= low_bits(code as u64, cl) + lzw_enc(
                    input,
                    i + 1,
                    b,
                    nc2,
                    cl,
                    mc,
                    dict2,
                ));
                assert(rest =~= lzw_enc(input, i + 1, b, nc2, cl, mc, dict2) + pad);
                assert(strs2[b as int] =~= input.subrange(i, i + 1));
                assert(strs2[nc2 - 1] == strs2[t2[nc2 - 1].prev as int] + seq![input[i]]) by {
                    assert(t2[nc as int].prev == code);
                    assert(strs2[nc as int] == strs[code as int] + seq![input[i]]);
                    assert(strs2[code as int] == strs[code as int]);
                }
                assert(lzw_sim_inv(input, i + 1, i, b, nc2, cl, mc, dict2, t2, strs2));
                lemma_lzw_sim(input, i + 1, i, b, nc2, cl, mc, dict2, t2, strs2, pad);
            }
            assert(input.subrange(j, i) + input.skip(i) =~= input.skip(j));
        }
    }
}

/// The LZW round trip: decoding the padded stream of any input, from a fresh
/// table, yields exactly that input.
pub proof fn lemma_lzw_round_trip(input: Seq<u8>)
    ensures
        lzw_dec(
            padded_bits(lzw_stream(input)),
            spec_fresh_table(),
            START_CODE,
            MIN_CODE_LEN as nat,
            START_MAX_CODE,
        ) == Result::<Seq<u8>, CodecError>::Ok(input),
{
    if input.len() == 0 {
        lemma_lzw_empty_round_trip();
        assert(input =~= Seq::<u8>::empty());
    } else {
        lemma2_to64();
        let stream = lzw_stream(input);
        let padseq = padded_bits(stream).skip(stream.len() as int);
        assert(padded_bits(stream) =~= stream + padseq);
        lemma_fresh_chains();
        assert(fresh_strs()[input[0] as int] =~= input.subrange(0, 1));
        assert(lzw_sim_inv(
            input,
            1,
            0,
            input[0] as u16,
            START_CODE,
            MIN_CODE_LEN as nat,
            START_MAX_CODE,
            Map::empty(),
            spec_fresh_table(),
            fresh_strs(),
        ));
        lemma_lzw_sim(
            input,
            1,
            0,
            input[0] as u16,
            START_CODE,
            MIN_CODE_LEN as nat,
            START_MAX_CODE,
            Map::empty(),
            spec_fresh_table(),
            fresh_strs(),
            padseq,
        );
        assert(input.skip(0) =~= input);
    }
}

} // verus!
