//! Schema-driven binary parser for PLC process images.
//!
//! A process image is a big-endian byte string laid out by an ordered
//! list of typed array blocks. The parser turns it into named,
//! stringified variables; when no schema is registered a heuristic
//! picks a layout. Parsing is a pure function of the bytes, so a frame
//! parses the same however the transport fragmented it.

use crate::numfmt::{
    dec_str, dec_str_signed, i64_to_string, parse_i64_spec, parse_i64_str, parse_u64_spec,
    parse_u64_str, real32_text, real32_to_string, real64_text, real64_to_string, u64_to_string,
};
use vstd::prelude::*;

verus! {

/// One typed array block of a PLC schema: `count` elements of the named
/// data type, laid out consecutively on the wire.
#[derive(Debug, Clone)]
pub struct DataBlockConfig {
    pub data_type: String,
    pub count: u32,
    pub name: String,
}

/// Mathematical image of a `DataBlockConfig`.
pub struct DataBlockView {
    pub data_type: Seq<char>,
    pub count: nat,
    pub name: Seq<char>,
}

impl View for DataBlockConfig {
    type V = DataBlockView;

    open spec fn view(&self) -> DataBlockView {
        DataBlockView { data_type: self.data_type@, count: self.count as nat, name: self.name@ }
    }
}

/// One parsed, stringified variable of a frame.
#[derive(Debug, Clone)]
pub struct PlcVariable {
    pub name: String,
    pub value: String,
    pub data_type: String,
    pub unit: Option<String>,
}

/// Mathematical image of a `PlcVariable`.
pub struct PlcVariableView {
    pub name: Seq<char>,
    pub value: Seq<char>,
    pub data_type: Seq<char>,
    pub unit: Option<Seq<char>>,
}

impl View for PlcVariable {
    type V = PlcVariableView;

    open spec fn view(&self) -> PlcVariableView {
        PlcVariableView {
            name: self.name@,
            value: self.value@,
            data_type: self.data_type@,
            unit: match self.unit {
                Some(ref u) => Some(u@),
                None => None,
            },
        }
    }
}

/// The views of a vector of blocks.
pub open spec fn blocks_view(blocks: Seq<DataBlockConfig>) -> Seq<DataBlockView> {
    blocks.map(|_i: int, b: DataBlockConfig| b@)
}

/// The views of a vector of variables.
pub open spec fn vars_view(vars: Seq<PlcVariable>) -> Seq<PlcVariableView> {
    vars.map(|_i: int, v: PlcVariable| v@)
}

/// The stored structural schema of one PLC: its ordered blocks and the
/// resulting total frame size in bytes.
#[derive(Debug, Clone)]
pub struct PlcStructureConfig {
    pub plc_ip: String,
    pub blocks: Vec<DataBlockConfig>,
    pub total_size: usize,
    pub last_updated: i64,
}

impl PlcStructureConfig {
    /// The total size names exactly the bytes the blocks lay out.
    pub open spec fn wf(&self) -> bool {
        self.total_size as nat == schema_size(blocks_view(self.blocks@))
    }
}

/// Big-endian 16-bit word from two bytes, high byte first: the wire
/// order PLCs transmit in.
pub fn bytes_to_word(high_byte: u8, low_byte: u8) -> (r: u16)
    ensures
        r == (high_byte as u16) * 256 + (low_byte as u16),
{
    (high_byte as u16) * 256 + (low_byte as u16)
}

/// Wire size in bytes of one element of the named data type; zero for
/// an unknown type name.
pub open spec fn type_size(dt: Seq<char>) -> nat {
    if dt == "BYTE"@ {
        1
    } else if dt == "WORD"@ || dt == "INT"@ {
        2
    } else if dt == "DWORD"@ || dt == "DINT"@ || dt == "REAL"@ {
        4
    } else if dt == "LWORD"@ || dt == "LINT"@ || dt == "LREAL"@ {
        8
    } else {
        0
    }
}

/// Total wire size of a block list: the sum of size times count.
pub open spec fn schema_size(blocks: Seq<DataBlockView>) -> nat
    decreases blocks.len(),
{
    if blocks.len() == 0 {
        0
    } else {
        type_size(blocks[0].data_type) * blocks[0].count + schema_size(blocks.skip(1))
    }
}

/// Big-endian unsigned value of `n` bytes at `off`.
pub open spec fn be_bytes(data: Seq<u8>, off: int, n: int) -> nat
    decreases n,
{
    if n <= 0 {
        0
    } else {
        be_bytes(data, off, n - 1) * 256 + data[off + n - 1] as nat
    }
}

/// Two's-complement reading of an unsigned value of `bits` bits.
pub open spec fn signed_of(v: nat, bits: nat) -> int {
    if v >= vstd::arithmetic::power2::pow2((bits - 1) as nat) {
        v - vstd::arithmetic::power2::pow2(bits)
    } else {
        v as int
    }
}

/// Canonical text of the element of type `dt` at `off`: integers in
/// decimal, the IEEE-754 types with six fractional digits.
pub open spec fn value_text(dt: Seq<char>, data: Seq<u8>, off: int) -> Seq<char> {
    if dt == "BYTE"@ {
        dec_str(data[off] as nat)
    } else if dt == "WORD"@ {
        dec_str(be_bytes(data, off, 2))
    } else if dt == "INT"@ {
        dec_str_signed(signed_of(be_bytes(data, off, 2), 16))
    } else if dt == "DWORD"@ {
        dec_str(be_bytes(data, off, 4))
    } else if dt == "DINT"@ {
        dec_str_signed(signed_of(be_bytes(data, off, 4), 32))
    } else if dt == "REAL"@ {
        real32_text(be_bytes(data, off, 4) as u32)
    } else if dt == "LWORD"@ {
        dec_str(be_bytes(data, off, 8))
    } else if dt == "LINT"@ {
        dec_str_signed(signed_of(be_bytes(data, off, 8), 64))
    } else if dt == "LREAL"@ {
        real64_text(be_bytes(data, off, 8) as u64)
    } else {
        Seq::<char>::empty()
    }
}

/// `<base>[<i>]`, the name of element `i` of a block.
pub open spec fn elem_name(base: Seq<char>, i: nat) -> Seq<char> {
    base + "["@ + dec_str(i) + "]"@
}

/// The parsed variable for element `i` of block `b` at offset `off`.
pub open spec fn block_elem(b: DataBlockView, data: Seq<u8>, off: int, i: nat) -> PlcVariableView {
    PlcVariableView {
        name: elem_name(b.name, i),
        value: value_text(b.data_type, data, off + i * type_size(b.data_type)),
        data_type: b.data_type,
        unit: None,
    }
}

/// How many elements of the block fit in the data from `off` on.
pub open spec fn block_fit(data_len: int, off: int, b: DataBlockView) -> nat {
    let ts = type_size(b.data_type);
    let fit = if off > data_len {
        0nat
    } else {
        ((data_len - off) as nat) / ts
    };
    if b.count <= fit {
        b.count
    } else {
        fit
    }
}

/// The variables of one block, as many elements as fit.
pub open spec fn block_vars(data: Seq<u8>, off: int, b: DataBlockView) -> Seq<PlcVariableView> {
    Seq::new(block_fit(data.len() as int, off, b), |i: int| block_elem(b, data, off, i as nat))
}

/// Schema-driven parse from block `bi` at offset `off`: blocks emit
/// their elements in order; an unknown type is skipped; the first
/// element that does not fit stops parsing, and whatever was produced
/// is the result.
pub open spec fn parse_from(data: Seq<u8>, blocks: Seq<DataBlockView>, bi: int, off: int) -> Seq<
    PlcVariableView,
>
    decreases blocks.len() - bi,
{
    if bi < 0 || bi >= blocks.len() {
        Seq::<PlcVariableView>::empty()
    } else {
        let b = blocks[bi];
        let ts = type_size(b.data_type);
        if ts == 0 {
            parse_from(data, blocks, bi + 1, off)
        } else {
            let k = block_fit(data.len() as int, off, b);
            let vars = block_vars(data, off, b);
            if k < b.count {
                vars
            } else {
                vars + parse_from(data, blocks, bi + 1, off + k * ts)
            }
        }
    }
}

/// What `parse_with_config` returns: the frame `data` read against the
/// ordered `blocks`.
pub open spec fn parse_with_config_spec(data: Seq<u8>, blocks: Seq<DataBlockView>) -> Seq<
    PlcVariableView,
> {
    parse_from(data, blocks, 0, 0)
}

/// Character-wise string equality.
pub fn str_eq(a: &str, b: &str) -> (r: bool)
    ensures
        r == (a@ == b@),
{
    let la = a.unicode_len();
    let lb = b.unicode_len();
    if la != lb {
        return false;
    }
    let mut i: usize = 0;
    while i < la
        invariant
            la == a@.len() == b@.len(),
            0 <= i <= la,
            forall|j: int| 0 <= j < i ==> a@[j] == b@[j],
        decreases la - i,
    {
        if a.get_char(i) != b.get_char(i) {
            return false;
        }
        i = i + 1;
    }
    proof {
        assert(a@ =~= b@);
    }
    true
}

/// The nine wire data types.
#[derive(Clone, Copy, PartialEq, Eq, Structural, Debug)]
pub enum Kind {
    Byte,
    Word,
    Int,
    Dword,
    Dint,
    Real,
    Lword,
    Lint,
    Lreal,
}

/// The kind a type name denotes, if any.
pub open spec fn kind_of(dt: Seq<char>) -> Option<Kind> {
    if dt == "BYTE"@ {
        Some(Kind::Byte)
    } else if dt == "WORD"@ {
        Some(Kind::Word)
    } else if dt == "INT"@ {
        Some(Kind::Int)
    } else if dt == "DWORD"@ {
        Some(Kind::Dword)
    } else if dt == "DINT"@ {
        Some(Kind::Dint)
    } else if dt == "REAL"@ {
        Some(Kind::Real)
    } else if dt == "LWORD"@ {
        Some(Kind::Lword)
    } else if dt == "LINT"@ {
        Some(Kind::Lint)
    } else if dt == "LREAL"@ {
        Some(Kind::Lreal)
    } else {
        None
    }
}

pub open spec fn kind_size(k: Kind) -> nat {
    match k {
        Kind::Byte => 1,
        Kind::Word | Kind::Int => 2,
        Kind::Dword | Kind::Dint | Kind::Real => 4,
        Kind::Lword | Kind::Lint | Kind::Lreal => 8,
    }
}

pub proof fn lemma_kind_size(dt: Seq<char>)
    ensures
        match kind_of(dt) {
            Some(k) => type_size(dt) == kind_size(k),
            None => type_size(dt) == 0,
        },
{
}

/// Wire size of one element of the kind.
pub fn kind_size_exec(k: Kind) -> (r: usize)
    ensures
        r == kind_size(k),
        1 <= r <= 8,
{
    match k {
        Kind::Byte => 1,
        Kind::Word | Kind::Int => 2,
        Kind::Dword | Kind::Dint | Kind::Real => 4,
        Kind::Lword | Kind::Lint | Kind::Lreal => 8,
    }
}

pub fn kind_from_str(dt: &str) -> (k: Option<Kind>)
    ensures
        k == kind_of(dt@),
{
    if str_eq(dt, "BYTE") {
        Some(Kind::Byte)
    } else if str_eq(dt, "WORD") {
        Some(Kind::Word)
    } else if str_eq(dt, "INT") {
        Some(Kind::Int)
    } else if str_eq(dt, "DWORD") {
        Some(Kind::Dword)
    } else if str_eq(dt, "DINT") {
        Some(Kind::Dint)
    } else if str_eq(dt, "REAL") {
        Some(Kind::Real)
    } else if str_eq(dt, "LWORD") {
        Some(Kind::Lword)
    } else if str_eq(dt, "LINT") {
        Some(Kind::Lint)
    } else if str_eq(dt, "LREAL") {
        Some(Kind::Lreal)
    } else {
        None
    }
}

/// Big-endian unsigned read of `n <= 8` bytes at `off`.
fn read_be(data: &[u8], off: usize, n: usize) -> (v: u64)
    requires
        n <= 8,
        off + n <= data@.len(),
    ensures
        v as nat == be_bytes(data@, off as int, n as int),
        (v as nat) < vstd::arithmetic::power2::pow2((8 * n) as nat),
{
    proof {
        vstd::arithmetic::power2::lemma2_to64();
    }
    let dl: usize = data.len();
    let mut v: u64 = 0;
    let mut j: usize = 0;
    while j < n
        invariant
            0 <= j <= n <= 8,
            off + n <= dl,
            dl == data@.len(),
            v as nat == be_bytes(data@, off as int, j as int),
            (v as nat) < vstd::arithmetic::power2::pow2((8 * j) as nat),
        decreases n - j,
    {
        proof {
            vstd::arithmetic::power2::lemma2_to64();
            vstd::arithmetic::power2::lemma2_to64_rest();
            vstd::arithmetic::power2::lemma_pow2_adds((8 * j) as nat, 8);
            let p = vstd::arithmetic::power2::pow2((8 * j) as nat);
            let w = v as nat;
            assert(w * 256 + 255 < p * 256) by (nonlinear_arith)
                requires
                    w < p,
            ;
        }
        v = v * 256 + (data[off + j] as u64);
        j = j + 1;
    }
    v
}

/// `<base>[<i>]` as a `String`.
fn make_elem_name(base: &str, i: u32) -> (s: String)
    ensures
        s@ == elem_name(base@, i as nat),
{
    let mut s = String::from_str(base);
    s.append("[");
    let num = u64_to_string(i as u64);
    s.append(num.as_str());
    s.append("]");
    proof {
        reveal_strlit("[");
        reveal_strlit("]");
        assert(s@ =~= elem_name(base@, i as nat));
    }
    s
}

/// Signed decimal text of a two's-complement value of `2^(bits-1)`
/// boundary `half`, given as an unsigned `v`.
fn signed_text(v: u64, bits: u32) -> (s: String)
    requires
        bits == 16 || bits == 32 || bits == 64,
        bits < 64 ==> (v as nat) < vstd::arithmetic::power2::pow2(bits as nat),
    ensures
        s@ == dec_str_signed(signed_of(v as nat, bits as nat)),
{
    proof {
        vstd::arithmetic::power2::lemma2_to64();
        vstd::arithmetic::power2::lemma2_to64_rest();
    }
    if bits == 16 {
        let sv: i64 = if v >= 0x8000 {
            (v as i64) - 0x10000
        } else {
            v as i64
        };
        i64_to_string(sv)
    } else if bits == 32 {
        let sv: i64 = if v >= 0x80000000 {
            (v as i64) - 0x100000000
        } else {
            v as i64
        };
        i64_to_string(sv)
    } else {
        let sv: i64 = if v >= 0x8000000000000000 {
            let mag: u64 = (0xFFFFFFFFFFFFFFFF - v) + 1;
            (-(mag as i128)) as i64
        } else {
            v as i64
        };
        i64_to_string(sv)
    }
}

/// Canonical text of the element of kind `k` at `off`.
fn decode_elem(k: Kind, dt: Ghost<Seq<char>>, data: &[u8], off: usize) -> (s: String)
    requires
        kind_of(dt@) == Some(k),
        off + kind_size(k) <= data@.len(),
    ensures
        s@ == value_text(dt@, data@, off as int),
{
    proof {
        lemma_kind_size(dt@);
    }
    match k {
        Kind::Byte => {
            let v = data[off];
            proof {
                reveal_with_fuel(be_bytes, 2);
                assert(be_bytes(data@, off as int, 1) == data@[off as int] as nat);
            }
            u64_to_string(v as u64)
        },
        Kind::Word => u64_to_string(read_be(data, off, 2)),
        Kind::Int => {
            let v = read_be(data, off, 2);
            proof {
                vstd::arithmetic::power2::lemma2_to64();
            }
            signed_text(v, 16)
        },
        Kind::Dword => u64_to_string(read_be(data, off, 4)),
        Kind::Dint => {
            let v = read_be(data, off, 4);
            proof {
                vstd::arithmetic::power2::lemma2_to64();
            }
            signed_text(v, 32)
        },
        Kind::Real => {
            let v = read_be(data, off, 4);
            proof {
                vstd::arithmetic::power2::lemma2_to64();
                assert(v <= 0xFFFFFFFF);
            }
            real32_to_string(v as u32)
        },
        Kind::Lword => u64_to_string(read_be(data, off, 8)),
        Kind::Lint => signed_text(read_be(data, off, 8), 64),
        Kind::Lreal => real64_to_string(read_be(data, off, 8)),
    }
}

/// Parses `raw_data` against the ordered `blocks`: each block emits
/// `count` variables named `<name>[<i>]`; the first element that does
/// not fit in the remaining bytes stops parsing and whatever was
/// produced is returned.
pub fn parse_with_config(raw_data: &[u8], blocks: &[DataBlockConfig]) -> (vars: Vec<PlcVariable>)
    ensures
        vars_view(vars@) == parse_with_config_spec(raw_data@, blocks_view(blocks@)),
{
    let ghost data = raw_data@;
    let ghost bvs = blocks_view(blocks@);
    let mut vars: Vec<PlcVariable> = Vec::new();
    let mut offset: usize = 0;
    let mut bi: usize = 0;
    while bi < blocks.len()
        invariant
            data == raw_data@,
            bvs == blocks_view(blocks@),
            0 <= bi <= bvs.len(),
            bvs.len() == blocks@.len(),
            offset <= data.len(),
            parse_with_config_spec(data, bvs) == vars_view(vars@) + parse_from(
                data,
                bvs,
                bi as int,
                offset as int,
            ),
        decreases bvs.len() - bi,
    {
        let block = &blocks[bi];
        let kind = kind_from_str(block.data_type.as_str());
        proof {
            lemma_kind_size(bvs[bi as int].data_type);
        }
        match kind {
            None => {
                // unknown data type: the block is skipped
                bi = bi + 1;
            },
            Some(k) => {
                let ts: usize = match k {
                    Kind::Byte => 1,
                    Kind::Word | Kind::Int => 2,
                    Kind::Dword | Kind::Dint | Kind::Real => 4,
                    Kind::Lword | Kind::Lint | Kind::Lreal => 8,
                };
                let ghost off0 = offset as int;
                let ghost b = bvs[bi as int];
                let mut i: u32 = 0;
                let ghost prev_vars = vars_view(vars@);
                while i < block.count
                    invariant
                        data == raw_data@,
                        bvs == blocks_view(blocks@),
                        0 <= bi < bvs.len(),
                        bvs.len() == blocks@.len(),
                        b == bvs[bi as int],
                        kind_of(b.data_type) == Some(k),
                        ts == kind_size(k) == type_size(b.data_type),
                        block@ == b,
                        0 <= i <= b.count,
                        b.count == block.count,
                        offset == off0 + i * ts,
                        0 <= off0,
                        offset <= data.len(),
                        parse_with_config_spec(data, bvs) == prev_vars + parse_from(
                            data,
                            bvs,
                            bi as int,
                            off0,
                        ),
                        vars_view(vars@) == prev_vars + Seq::new(
                            i as nat,
                            |j: int| block_elem(b, data, off0, j as nat),
                        ),
                    decreases b.count - i,
                {
                    if raw_data.len() < ts || offset > raw_data.len() - ts {
                        // this element does not fit: parsing stops here
                        proof {
                            lemma_block_fit_exact(data.len() as int, off0, b, i as nat);
                            assert(block_vars(data, off0, b) =~= Seq::new(
                                i as nat,
                                |j: int| block_elem(b, data, off0, j as nat),
                            ));
                            assert(parse_from(data, bvs, bi as int, off0) == block_vars(
                                data,
                                off0,
                                b,
                            ));
                            assert(parse_with_config_spec(data, bvs) =~= vars_view(vars@));
                        }
                        return vars;
                    }
                    let name = make_elem_name(block.name.as_str(), i);
                    let value = decode_elem(k, Ghost(b.data_type), raw_data, offset);
                    let dt_copy = block.data_type.clone();
                    let v = PlcVariable { name, value, data_type: dt_copy, unit: None };
                    let ghost old_vars = vars_view(vars@);
                    vars.push(v);
                    proof {
                        assert(vars_view(vars@) =~= old_vars.push(v@));
                        assert(v@ == block_elem(b, data, off0, i as nat)) by {
                            assert(off0 + i * ts == offset);
                        }
                        assert(old_vars.push(v@) =~= prev_vars + Seq::new(
                            (i + 1) as nat,
                            |j: int| block_elem(b, data, off0, j as nat),
                        ));
                    }
                    offset = offset + ts;
                    i = i + 1;
                    proof {
                        assert(offset == off0 + i * ts) by (nonlinear_arith)
                            requires
                                offset == off0 + (i - 1) * ts + ts,
                        ;
                    }
                }
                // the whole block fit
                proof {
                    lemma_block_fit_full(data.len() as int, off0, b);
                    assert(block_vars(data, off0, b) =~= Seq::new(
                        b.count,
                        |j: int| block_elem(b, data, off0, j as nat),
                    ));
                    assert(parse_from(data, bvs, bi as int, off0) == block_vars(data, off0, b)
                        + parse_from(data, bvs, bi as int + 1, off0 + b.count * ts));
                    assert(offset == off0 + b.count * ts);
                    assert(vars_view(vars@) + parse_from(data, bvs, bi as int + 1, offset as int)
                        =~= prev_vars + (block_vars(data, off0, b) + parse_from(
                        data,
                        bvs,
                        bi as int + 1,
                        offset as int,
                    )));
                }
                bi = bi + 1;
            },
        }
    }
    proof {
        assert(parse_from(data, bvs, bi as int, offset as int) =~= Seq::<
            PlcVariableView,
        >::empty());
        assert(parse_with_config_spec(data, bvs) =~= vars_view(vars@));
    }
    vars
}

/// When elements `0..i` fit and element `i` does not, exactly `i` fit.
proof fn lemma_block_fit_exact(data_len: int, off0: int, b: DataBlockView, i: nat)
    requires
        type_size(b.data_type) >= 1,
        0 <= off0,
        off0 + i * type_size(b.data_type) <= data_len,
        off0 + i * type_size(b.data_type) + type_size(b.data_type) > data_len,
        i < b.count,
    ensures
        block_fit(data_len, off0, b) == i,
{
    let ts = type_size(b.data_type) as int;
    let rem = data_len - off0;
    assert(i * ts <= rem < i * ts + ts);
    vstd::arithmetic::div_mod::lemma_fundamental_div_mod_converse(
        rem,
        ts,
        i as int,
        rem - i * ts,
    );
    assert((rem as nat) / (ts as nat) == i);
}

/// `<prefix><i>`, the name of element `i` of an auto-detected layout.
pub open spec fn auto_name(prefix: Seq<char>, i: nat) -> Seq<char> {
    prefix + dec_str(i)
}

/// `count` elements of type `dt` starting at `start`, named
/// `<prefix>0`, `<prefix>1`, ...
pub open spec fn section_vars(
    data: Seq<u8>,
    start: int,
    count: nat,
    prefix: Seq<char>,
    dt: Seq<char>,
) -> Seq<PlcVariableView> {
    Seq::new(
        count,
        |i: int|
            PlcVariableView {
                name: auto_name(prefix, i as nat),
                value: value_text(dt, data, start + i * type_size(dt)),
                data_type: dt,
                unit: None,
            },
    )
}

/// The five layouts the auto-detection heuristic can pick.
#[derive(Clone, Copy, PartialEq, Eq, Structural, Debug)]
pub enum AutoLayout {
    Word,
    Dword,
    Real,
    Mixed,
    Byte,
}

/// Lower bound of the bit patterns read as plausible binary32 values:
/// the magnitude of 1e-6.
pub const REAL_MIN_BITS: u32 = 0x358637BD;

/// Upper bound of the bit patterns read as plausible binary32 values:
/// the magnitude of 1e6.
pub const REAL_MAX_BITS: u32 = 0x49742400;

/// A four-byte group decodes as a finite binary32 with absolute value
/// between 1e-6 and 1e6 exactly when its magnitude bits land between
/// the patterns of those two bounds.
pub open spec fn plausible_real(bits: nat) -> bool {
    let mag = bits % 0x80000000;
    REAL_MIN_BITS <= mag <= REAL_MAX_BITS
}

/// How many of the first `g` four-byte groups look like plausible
/// binary32 values.
pub open spec fn count_plausible(data: Seq<u8>, g: int) -> nat
    decreases g,
{
    if g <= 0 {
        0
    } else {
        count_plausible(data, g - 1) + if plausible_real(be_bytes(data, 4 * (g - 1), 4)) {
            1nat
        } else {
            0nat
        }
    }
}

/// The layout auto-detection picks for a frame with no schema:
/// exactly 520 bytes is the canonical mixed block; a word-multiple of
/// four with at least 30% plausible binary32 groups is an array of
/// REALs; other multiples of four are DWORDs; multiples of two are
/// WORDs; anything else raw bytes.
pub open spec fn detect_layout(data: Seq<u8>) -> AutoLayout {
    let len = data.len() as int;
    if len == 520 {
        AutoLayout::Mixed
    } else if len % 4 == 0 && len >= 4 && 10 * count_plausible(data, len / 4) >= 3 * (len / 4) {
        AutoLayout::Real
    } else if len % 4 == 0 {
        AutoLayout::Dword
    } else if len % 2 == 0 {
        AutoLayout::Word
    } else {
        AutoLayout::Byte
    }
}

/// The format tag `detect_data_format` reports for each layout.
pub open spec fn layout_tag(k: AutoLayout) -> Seq<char> {
    match k {
        AutoLayout::Word => "word"@,
        AutoLayout::Dword => "dword"@,
        AutoLayout::Real => "real"@,
        AutoLayout::Mixed => "mixed"@,
        AutoLayout::Byte => "byte"@,
    }
}

/// What `parse_auto_detect` returns for a schema-less frame.
pub open spec fn parse_auto_detect_spec(data: Seq<u8>) -> Seq<PlcVariableView> {
    let len = data.len() as int;
    match detect_layout(data) {
        AutoLayout::Word => section_vars(data, 0, (len / 2) as nat, "W"@, "WORD"@),
        AutoLayout::Dword => section_vars(data, 0, (len / 4) as nat, "DW"@, "DWORD"@),
        AutoLayout::Real => section_vars(data, 0, (len / 4) as nat, "R"@, "REAL"@),
        AutoLayout::Mixed => section_vars(data, 0, 65, "W"@, "WORD"@) + section_vars(
            data,
            130,
            65,
            "I"@,
            "INT"@,
        ) + section_vars(data, 260, 65, "R"@, "REAL"@),
        AutoLayout::Byte => section_vars(data, 0, data.len(), "B"@, "BYTE"@),
    }
}

/// Picks the layout for a schema-less frame.
fn detect_layout_exec(data: &[u8]) -> (k: AutoLayout)
    ensures
        k == detect_layout(data@),
{
    let len = data.len();
    if len == 520 {
        return AutoLayout::Mixed;
    }
    if len % 4 == 0 && len >= 4 {
        let g = len / 4;
        proof {
            vstd::arithmetic::div_mod::lemma_fundamental_div_mod(len as int, 4);
        }
        let mut cnt: usize = 0;
        let mut i: usize = 0;
        while i < g
            invariant
                g == data@.len() as int / 4,
                4 * g <= len,
                len == data@.len(),
                0 <= i <= g,
                cnt == count_plausible(data@, i as int),
                cnt <= i,
            decreases g - i,
        {
            proof {
                assert(4 * (i as int) + 4 <= 4 * g) by (nonlinear_arith)
                    requires
                        (i as int) < g as int,
                ;
                vstd::arithmetic::power2::lemma2_to64();
            }
            let v = read_be(data, 4 * i, 4);
            let mag: u64 = v % 0x80000000;
            if REAL_MIN_BITS as u64 <= mag && mag <= REAL_MAX_BITS as u64 {
                cnt = cnt + 1;
            }
            i = i + 1;
        }
        if 10 * (cnt as u128) >= 3 * (g as u128) {
            return AutoLayout::Real;
        } else {
            return AutoLayout::Dword;
        }
    }
    if len % 4 == 0 {
        AutoLayout::Dword
    } else if len % 2 == 0 {
        AutoLayout::Word
    } else {
        AutoLayout::Byte
    }
}

/// Reports which layout the heuristic picks, as its format tag.
pub fn detect_data_format(raw_data: &[u8]) -> (r: &'static str)
    ensures
        r@ == layout_tag(detect_layout(raw_data@)),
{
    let k = detect_layout_exec(raw_data);
    let r: &'static str = match k {
        AutoLayout::Word => "word",
        AutoLayout::Dword => "dword",
        AutoLayout::Real => "real",
        AutoLayout::Mixed => "mixed",
        AutoLayout::Byte => "byte",
    };
    proof {
        reveal_strlit("word");
        reveal_strlit("dword");
        reveal_strlit("real");
        reveal_strlit("mixed");
        reveal_strlit("byte");
    }
    r
}

/// `<prefix><i>` as a `String`.
fn make_auto_name(prefix: &str, i: u64) -> (s: String)
    ensures
        s@ == auto_name(prefix@, i as nat),
{
    let mut s = String::from_str(prefix);
    let num = u64_to_string(i);
    s.append(num.as_str());
    proof {
        assert(s@ =~= auto_name(prefix@, i as nat));
    }
    s
}

/// Parses `count` elements of one type into `<prefix><i>` variables.
fn parse_section(
    data: &[u8],
    start: usize,
    count: usize,
    prefix: &str,
    dt_name: &str,
    k: Kind,
) -> (vars: Vec<PlcVariable>)
    requires
        kind_of(dt_name@) == Some(k),
        start + count * kind_size(k) <= data@.len(),
    ensures
        vars_view(vars@) == section_vars(data@, start as int, count as nat, prefix@, dt_name@),
{
    proof {
        lemma_kind_size(dt_name@);
    }
    let ts: usize = match k {
        Kind::Byte => 1,
        Kind::Word | Kind::Int => 2,
        Kind::Dword | Kind::Dint | Kind::Real => 4,
        Kind::Lword | Kind::Lint | Kind::Lreal => 8,
    };
    let dl: usize = data.len();
    let mut vars: Vec<PlcVariable> = Vec::new();
    let mut i: usize = 0;
    while i < count
        invariant
            kind_of(dt_name@) == Some(k),
            ts == kind_size(k) == type_size(dt_name@),
            ts >= 1,
            start + count * ts <= dl,
            dl == data@.len(),
            0 <= i <= count,
            vars_view(vars@) =~= section_vars(data@, start as int, i as nat, prefix@, dt_name@),
        decreases count - i,
    {
        proof {
            assert(start + i * ts + ts <= start + count * ts) by (nonlinear_arith)
                requires
                    (i as int) < count as int,
                    ts as int >= 1,
            ;
        }
        let name = make_auto_name(prefix, i as u64);
        let value = decode_elem(k, Ghost(dt_name@), data, start + i * ts);
        let dt_copy = String::from_str(dt_name);
        let v = PlcVariable { name, value, data_type: dt_copy, unit: None };
        let ghost old_vars = vars_view(vars@);
        vars.push(v);
        proof {
            assert(vars_view(vars@) =~= old_vars.push(v@));
            assert(old_vars.push(v@) =~= section_vars(
                data@,
                start as int,
                (i + 1) as nat,
                prefix@,
                dt_name@,
            ));
        }
        i = i + 1;
    }
    vars
}

/// The kinds of the nine literal type names.
proof fn lemma_kind_literals()
    ensures
        kind_of("BYTE"@) == Some(Kind::Byte),
        kind_of("WORD"@) == Some(Kind::Word),
        kind_of("INT"@) == Some(Kind::Int),
        kind_of("DWORD"@) == Some(Kind::Dword),
        kind_of("DINT"@) == Some(Kind::Dint),
        kind_of("REAL"@) == Some(Kind::Real),
        kind_of("LWORD"@) == Some(Kind::Lword),
        kind_of("LINT"@) == Some(Kind::Lint),
        kind_of("LREAL"@) == Some(Kind::Lreal),
{
    reveal_strlit("BYTE");
    reveal_strlit("WORD");
    reveal_strlit("INT");
    reveal_strlit("DWORD");
    reveal_strlit("DINT");
    reveal_strlit("REAL");
    reveal_strlit("LWORD");
    reveal_strlit("LINT");
    reveal_strlit("LREAL");
    assert("WORD"@[0] != "BYTE"@[0]);
    assert("REAL"@[0] != "BYTE"@[0] && "REAL"@[0] != "WORD"@[0]);
    assert("LINT"@[0] != "BYTE"@[0] && "LINT"@[0] != "WORD"@[0] && "LINT"@[0] != "REAL"@[0]);
    assert("LWORD"@[0] != "DWORD"@[0]);
    assert("LREAL"@[0] != "DWORD"@[0]);
    assert("LREAL"@[1] != "LWORD"@[1]);
    assert("INT"@.len() != "BYTE"@.len());
    assert("DINT"@[0] != "BYTE"@[0] && "DINT"@[0] != "WORD"@[0] && "DINT"@[0] != "REAL"@[0]
        && "DINT"@[0] != "LINT"@[0]);
    assert("DWORD"@.len() == 5 && "WORD"@.len() == 4 && "BYTE"@.len() == 4 && "INT"@.len() == 3
        && "DINT"@.len() == 4 && "REAL"@.len() == 4 && "LWORD"@.len() == 5 && "LINT"@.len() == 4
        && "LREAL"@.len() == 5);
}

/// Best-effort parse of a frame with no registered schema: the
/// heuristic layout decides how the bytes are split and named.
pub fn parse_auto_detect(raw_data: &[u8]) -> (vars: Vec<PlcVariable>)
    ensures
        vars_view(vars@) == parse_auto_detect_spec(raw_data@),
{
    proof {
        lemma_kind_literals();
    }
    let k = detect_layout_exec(raw_data);
    match k {
        AutoLayout::Word => {
            let count = raw_data.len() / 2;
            proof {
                vstd::arithmetic::div_mod::lemma_fundamental_div_mod(raw_data@.len() as int, 2);
            }
            parse_section(raw_data, 0, count, "W", "WORD", Kind::Word)
        },
        AutoLayout::Dword => {
            let count = raw_data.len() / 4;
            proof {
                vstd::arithmetic::div_mod::lemma_fundamental_div_mod(raw_data@.len() as int, 4);
            }
            parse_section(raw_data, 0, count, "DW", "DWORD", Kind::Dword)
        },
        AutoLayout::Real => {
            let count = raw_data.len() / 4;
            proof {
                vstd::arithmetic::div_mod::lemma_fundamental_div_mod(raw_data@.len() as int, 4);
            }
            parse_section(raw_data, 0, count, "R", "REAL", Kind::Real)
        },
        AutoLayout::Mixed => {
            let mut vars = parse_section(raw_data, 0, 65, "W", "WORD", Kind::Word);
            let mut ints = parse_section(raw_data, 130, 65, "I", "INT", Kind::Int);
            let mut reals = parse_section(raw_data, 260, 65, "R", "REAL", Kind::Real);
            let ghost w = vars_view(vars@);
            let ghost iv = vars_view(ints@);
            let ghost rv = vars_view(reals@);
            vars.append(&mut ints);
            proof {
                assert(vars_view(vars@) =~= w + iv);
            }
            vars.append(&mut reals);
            proof {
                assert(vars_view(vars@) =~= (w + iv) + rv);
            }
            vars
        },
        AutoLayout::Byte => parse_section(raw_data, 0, raw_data.len(), "B", "BYTE", Kind::Byte),
    }
}

/// A parsed frame: the raw bytes, their size, and the variables they
/// decode to, stamped with the moment of arrival.
#[derive(Debug, Clone)]
pub struct PlcDataPacket {
    pub ip: String,
    pub timestamp: u64,
    pub raw_data: Vec<u8>,
    pub size: usize,
    pub variables: Vec<PlcVariable>,
}

/// The variables a frame parses to: schema-driven whenever a schema
/// is registered — a short or long frame still reads against the
/// blocks, which stop at the first element that does not fit — and
/// heuristic auto-detection only for a PLC with no schema.
pub open spec fn parse_frame_spec(data: Seq<u8>, config: Option<PlcStructureConfig>) -> Seq<
    PlcVariableView,
> {
    match config {
        Some(c) => parse_with_config_spec(data, blocks_view(c.blocks@)),
        None => parse_auto_detect_spec(data),
    }
}

/// Parses one frame from `ip` received at `timestamp`: schema-driven
/// whenever a schema is registered, auto-detected only without one.
/// Pure in the bytes: however the transport fragmented the frame,
/// equal bytes give equal variables.
pub fn parse_plc_data(
    raw_data: &[u8],
    ip: &str,
    config: Option<&PlcStructureConfig>,
    timestamp: u64,
) -> (p: PlcDataPacket)
    ensures
        p.ip@ == ip@,
        p.timestamp == timestamp,
        p.raw_data@ == raw_data@,
        p.size == raw_data@.len(),
        vars_view(p.variables@) == parse_frame_spec(
            raw_data@,
            match config {
                Some(c) => Some(*c),
                None => None,
            },
        ),
{
    let variables = match config {
        Some(c) => parse_with_config(raw_data, c.blocks.as_slice()),
        None => parse_auto_detect(raw_data),
    };
    PlcDataPacket {
        ip: String::from_str(ip),
        timestamp,
        raw_data: vstd::slice::slice_to_vec(raw_data),
        size: raw_data.len(),
        variables,
    }
}

/// Big-endian encoding of `v` in `n` bytes.
pub open spec fn be_enc(v: nat, n: nat) -> Seq<u8>
    decreases n,
{
    if n == 0 {
        Seq::<u8>::empty()
    } else {
        be_enc(v / 256, (n - 1) as nat).push((v % 256) as u8)
    }
}

/// The unsigned two's-complement image of a signed value.
pub open spec fn unsigned_of(v: int, bits: nat) -> nat {
    if v < 0 {
        (v + vstd::arithmetic::power2::pow2(bits)) as nat
    } else {
        v as nat
    }
}

/// The wire bytes a stringified value of type `dt` encodes back to:
/// defined for the seven integer types, `None` for the IEEE types and
/// for text that does not parse or does not fit.
pub open spec fn encode_value_spec(value: Seq<char>, dt: Seq<char>) -> Option<Seq<u8>> {
    match kind_of(dt) {
        Some(Kind::Byte) => match parse_u64_spec(value) {
            Some(v) => if v < 256 {
                Some(be_enc(v as nat, 1))
            } else {
                None
            },
            None => None,
        },
        Some(Kind::Word) => match parse_u64_spec(value) {
            Some(v) => if v < 0x10000 {
                Some(be_enc(v as nat, 2))
            } else {
                None
            },
            None => None,
        },
        Some(Kind::Dword) => match parse_u64_spec(value) {
            Some(v) => if v < 0x100000000 {
                Some(be_enc(v as nat, 4))
            } else {
                None
            },
            None => None,
        },
        Some(Kind::Lword) => match parse_u64_spec(value) {
            Some(v) => Some(be_enc(v as nat, 8)),
            None => None,
        },
        Some(Kind::Int) => match parse_i64_spec(value) {
            Some(v) => if -0x8000 <= v < 0x8000 {
                Some(be_enc(unsigned_of(v as int, 16), 2))
            } else {
                None
            },
            None => None,
        },
        Some(Kind::Dint) => match parse_i64_spec(value) {
            Some(v) => if -0x80000000 <= v < 0x80000000 {
                Some(be_enc(unsigned_of(v as int, 32), 4))
            } else {
                None
            },
            None => None,
        },
        Some(Kind::Lint) => match parse_i64_spec(value) {
            Some(v) => Some(be_enc(unsigned_of(v as int, 64), 8)),
            None => None,
        },
        _ => None,
    }
}

/// `be_enc` in executable form.
fn be_enc_exec(v: u64, n: usize) -> (r: Vec<u8>)
    requires
        n <= 8,
    ensures
        r@ == be_enc(v as nat, n as nat),
    decreases n,
{
    if n == 0 {
        Vec::new()
    } else {
        let mut r = be_enc_exec(v / 256, n - 1);
        r.push((v % 256) as u8);
        r
    }
}

/// Encodes a stringified integer value of type `dt` back to its wire
/// bytes; `None` for the IEEE types, unknown types, or text out of
/// range.
pub fn encode_variable(value: &str, data_type: &str) -> (r: Option<Vec<u8>>)
    ensures
        match r {
            Some(bytes) => encode_value_spec(value@, data_type@) == Some(bytes@),
            None => encode_value_spec(value@, data_type@) is None,
        },
{
    let kind = kind_from_str(data_type);
    match kind {
        Some(Kind::Byte) => match parse_u64_str(value) {
            Some(v) => if v < 256 {
                Some(be_enc_exec(v, 1))
            } else {
                None
            },
            None => None,
        },
        Some(Kind::Word) => match parse_u64_str(value) {
            Some(v) => if v < 0x10000 {
                Some(be_enc_exec(v, 2))
            } else {
                None
            },
            None => None,
        },
        Some(Kind::Dword) => match parse_u64_str(value) {
            Some(v) => if v < 0x100000000 {
                Some(be_enc_exec(v, 4))
            } else {
                None
            },
            None => None,
        },
        Some(Kind::Lword) => match parse_u64_str(value) {
            Some(v) => Some(be_enc_exec(v, 8)),
            None => None,
        },
        Some(Kind::Int) => match parse_i64_str(value) {
            Some(v) => if -0x8000 <= v && v < 0x8000 {
                let u: u64 = if v < 0 {
                    (v + 0x10000) as u64
                } else {
                    v as u64
                };
                proof {
                    vstd::arithmetic::power2::lemma2_to64();
                }
                Some(be_enc_exec(u, 2))
            } else {
                None
            },
            None => None,
        },
        Some(Kind::Dint) => match parse_i64_str(value) {
            Some(v) => if -0x80000000 <= v && v < 0x80000000 {
                let u: u64 = if v < 0 {
                    (v + 0x100000000) as u64
                } else {
                    v as u64
                };
                proof {
                    vstd::arithmetic::power2::lemma2_to64();
                }
                Some(be_enc_exec(u, 4))
            } else {
                None
            },
            None => None,
        },
        Some(Kind::Lint) => match parse_i64_str(value) {
            Some(v) => {
                let u: u64 = if v < 0 {
                    (((v as i128) + 0x10000000000000000) as u64)
                } else {
                    v as u64
                };
                proof {
                    vstd::arithmetic::power2::lemma2_to64();
                    vstd::arithmetic::power2::lemma2_to64_rest();
                }
                Some(be_enc_exec(u, 8))
            },
            None => None,
        },
        _ => None,
    }
}

/// Auto-detection on exactly 520 bytes always picks the mixed layout:
/// 65 WORDs, 65 INTs, 65 REALs.
pub proof fn lemma_auto_detect_520(data: Seq<u8>)
    requires
        data.len() == 520,
    ensures
        detect_layout(data) == AutoLayout::Mixed,
        parse_auto_detect_spec(data) == section_vars(data, 0, 65, "W"@, "WORD"@) + section_vars(
            data,
            130,
            65,
            "I"@,
            "INT"@,
        ) + section_vars(data, 260, 65, "R"@, "REAL"@),
{
}

/// `be_bytes` stays under the power of two of its width.
proof fn lemma_be_bytes_bound(data: Seq<u8>, off: int, n: int)
    requires
        0 <= n,
    ensures
        be_bytes(data, off, n) < vstd::arithmetic::power2::pow2((8 * n) as nat),
    decreases n,
{
    vstd::arithmetic::power2::lemma2_to64();
    if n > 0 {
        lemma_be_bytes_bound(data, off, n - 1);
        vstd::arithmetic::power2::lemma_pow2_adds((8 * (n - 1)) as nat, 8);
        let p = vstd::arithmetic::power2::pow2((8 * (n - 1)) as nat);
        let b = be_bytes(data, off, n - 1);
        let d = if 0 <= off + n - 1 < data.len() {
            data[off + n - 1] as nat
        } else {
            0nat
        };
        assert(be_bytes(data, off, n) == b * 256 + data[off + n - 1] as nat);
        assert(b * 256 + 255 < p * 256) by (nonlinear_arith)
            requires
                b < p,
        ;
    }
}

/// Re-encoding the bytes just read gives them back.
proof fn lemma_be_enc_of_bytes(data: Seq<u8>, off: int, n: int)
    requires
        0 <= off,
        0 <= n,
        off + n <= data.len(),
    ensures
        be_enc(be_bytes(data, off, n), n as nat) =~= data.subrange(off, off + n),
    decreases n,
{
    if n > 0 {
        let v = be_bytes(data, off, n);
        let prev = be_bytes(data, off, n - 1);
        assert(v == prev * 256 + data[off + n - 1] as nat);
        assert(v / 256 == prev && v % 256 == data[off + n - 1] as nat) by {
            vstd::arithmetic::div_mod::lemma_fundamental_div_mod_converse(
                v as int,
                256,
                prev as int,
                data[off + n - 1] as int,
            );
        }
        lemma_be_enc_of_bytes(data, off, n - 1);
        assert(be_enc(v, n as nat) == be_enc(prev, (n - 1) as nat).push((v % 256) as u8));
        assert(data.subrange(off, off + n) =~= data.subrange(off, off + n - 1).push(
            data[off + n - 1],
        ));
    }
}

/// Round trip: for every integer-typed element, re-encoding the text
/// the parser produced restores the wire bytes exactly.
pub proof fn lemma_value_round_trip(dt: Seq<char>, data: Seq<u8>, off: int)
    requires
        0 <= off,
        off + type_size(dt) <= data.len(),
        kind_of(dt) matches Some(k) && k != Kind::Real && k != Kind::Lreal,
    ensures
        encode_value_spec(value_text(dt, data, off), dt) == Some(
            data.subrange(off, off + type_size(dt)),
        ),
{
    vstd::arithmetic::power2::lemma2_to64();
    vstd::arithmetic::power2::lemma2_to64_rest();
    let k = kind_of(dt).unwrap();
    lemma_kind_size(dt);
    let n = type_size(dt) as int;
    let v = be_bytes(data, off, n);
    lemma_be_bytes_bound(data, off, n);
    lemma_be_enc_of_bytes(data, off, n);
    match k {
        Kind::Byte | Kind::Word | Kind::Dword | Kind::Lword => {
            crate::numfmt::lemma_u64_round_trip(v as u64);
        },
        Kind::Int => {
            let sv = signed_of(v, 16);
            crate::numfmt::lemma_i64_round_trip(sv as i64);
            assert(unsigned_of(sv, 16) == v);
        },
        Kind::Dint => {
            let sv = signed_of(v, 32);
            crate::numfmt::lemma_i64_round_trip(sv as i64);
            assert(unsigned_of(sv, 32) == v);
        },
        Kind::Lint => {
            let sv = signed_of(v, 64);
            crate::numfmt::lemma_i64_round_trip(sv as i64);
            assert(unsigned_of(sv, 64) == v);
        },
        _ => {},
    }
}

/// When all `count` elements fit, the whole block is emitted.
proof fn lemma_block_fit_full(data_len: int, off0: int, b: DataBlockView)
    requires
        type_size(b.data_type) >= 1,
        0 <= off0,
        off0 + b.count * type_size(b.data_type) <= data_len,
    ensures
        block_fit(data_len, off0, b) == b.count,
{
    let ts = type_size(b.data_type) as int;
    let rem = data_len - off0;
    assert(b.count * ts <= rem);
    assert((rem as nat) / (ts as nat) >= b.count) by {
        vstd::arithmetic::div_mod::lemma_div_is_ordered(
            b.count * ts,
            rem,
            ts,
        );
        vstd::arithmetic::div_mod::lemma_div_by_multiple(b.count as int, ts);
    }
}

} // verus!
