//! The ARC program language: 8-byte operation tokens and token sequences.
//!
//! Byte 0 of a token is the operation code, bytes 1-7 are its parameters.

use vstd::prelude::*;
use crate::text::{dec_string, push_decimal, push_str};

verus! {

/// The primitive grid transformations, by operation code 0-12.
#[derive(Debug, Clone, Copy, PartialEq, Eq, Hash, Structural)]
pub enum ArcOpCode {
    Identity,
    Rotate,
    Flip,
    Move,
    Fill,
    Copy,
    Gravity,
    Mirror,
    Tile,
    Crop,
    ReplaceColor,
    Scale,
    CropContent,
}

/// The byte that encodes an operation.
pub open spec fn op_byte(op: ArcOpCode) -> u8 {
    match op {
        ArcOpCode::Identity => 0,
        ArcOpCode::Rotate => 1,
        ArcOpCode::Flip => 2,
        ArcOpCode::Move => 3,
        ArcOpCode::Fill => 4,
        ArcOpCode::Copy => 5,
        ArcOpCode::Gravity => 6,
        ArcOpCode::Mirror => 7,
        ArcOpCode::Tile => 8,
        ArcOpCode::Crop => 9,
        ArcOpCode::ReplaceColor => 10,
        ArcOpCode::Scale => 11,
        ArcOpCode::CropContent => 12,
    }
}

/// The operation a byte encodes, if any.
pub open spec fn op_of_byte(b: u8) -> Option<ArcOpCode> {
    if b == 0 { Some(ArcOpCode::Identity) }
    else if b == 1 { Some(ArcOpCode::Rotate) }
    else if b == 2 { Some(ArcOpCode::Flip) }
    else if b == 3 { Some(ArcOpCode::Move) }
    else if b == 4 { Some(ArcOpCode::Fill) }
    else if b == 5 { Some(ArcOpCode::Copy) }
    else if b == 6 { Some(ArcOpCode::Gravity) }
    else if b == 7 { Some(ArcOpCode::Mirror) }
    else if b == 8 { Some(ArcOpCode::Tile) }
    else if b == 9 { Some(ArcOpCode::Crop) }
    else if b == 10 { Some(ArcOpCode::ReplaceColor) }
    else if b == 11 { Some(ArcOpCode::Scale) }
    else if b == 12 { Some(ArcOpCode::CropContent) }
    else { None }
}

/// The human-readable name of an operation.
pub open spec fn op_name(op: ArcOpCode) -> Seq<char> {
    match op {
        ArcOpCode::Identity => "Identity"@,
        ArcOpCode::Rotate => "Rotate"@,
        ArcOpCode::Flip => "Flip"@,
        ArcOpCode::Move => "Move"@,
        ArcOpCode::Fill => "Fill"@,
        ArcOpCode::Copy => "Copy"@,
        ArcOpCode::Gravity => "Gravity"@,
        ArcOpCode::Mirror => "Mirror"@,
        ArcOpCode::Tile => "Tile"@,
        ArcOpCode::Crop => "Crop"@,
        ArcOpCode::ReplaceColor => "ReplaceColor"@,
        ArcOpCode::Scale => "Scale"@,
        ArcOpCode::CropContent => "CropContent"@,
    }
}

impl ArcOpCode {
    /// Returns the byte representation of this op code.
    pub fn as_byte(&self) -> (b: u8)
        ensures
            b == op_byte(*self),
            b <= 12,
    {
        match self {
            ArcOpCode::Identity => 0,
            ArcOpCode::Rotate => 1,
            ArcOpCode::Flip => 2,
            ArcOpCode::Move => 3,
            ArcOpCode::Fill => 4,
            ArcOpCode::Copy => 5,
            ArcOpCode::Gravity => 6,
            ArcOpCode::Mirror => 7,
            ArcOpCode::Tile => 8,
            ArcOpCode::Crop => 9,
            ArcOpCode::ReplaceColor => 10,
            ArcOpCode::Scale => 11,
            ArcOpCode::CropContent => 12,
        }
    }

    /// Creates an `ArcOpCode` from a byte value; `None` above 12.
    pub fn from_byte(byte: u8) -> (r: Option<ArcOpCode>)
        ensures
            r == op_of_byte(byte),
            r is Some <==> byte <= 12,
    {
        match byte {
            0 => Some(ArcOpCode::Identity),
            1 => Some(ArcOpCode::Rotate),
            2 => Some(ArcOpCode::Flip),
            3 => Some(ArcOpCode::Move),
            4 => Some(ArcOpCode::Fill),
            5 => Some(ArcOpCode::Copy),
            6 => Some(ArcOpCode::Gravity),
            7 => Some(ArcOpCode::Mirror),
            8 => Some(ArcOpCode::Tile),
            9 => Some(ArcOpCode::Crop),
            10 => Some(ArcOpCode::ReplaceColor),
            11 => Some(ArcOpCode::Scale),
            12 => Some(ArcOpCode::CropContent),
            _ => None,
        }
    }

    /// Returns the human-readable name of this operation.
    pub fn name(&self) -> (s: &'static str)
        ensures
            s@ == op_name(*self),
    {
        match self {
            ArcOpCode::Identity => "Identity",
            ArcOpCode::Rotate => "Rotate",
            ArcOpCode::Flip => "Flip",
            ArcOpCode::Move => "Move",
            ArcOpCode::Fill => "Fill",
            ArcOpCode::Copy => "Copy",
            ArcOpCode::Gravity => "Gravity",
            ArcOpCode::Mirror => "Mirror",
            ArcOpCode::Tile => "Tile",
            ArcOpCode::Crop => "Crop",
            ArcOpCode::ReplaceColor => "ReplaceColor",
            ArcOpCode::Scale => "Scale",
            ArcOpCode::CropContent => "CropContent",
        }
    }
}

/// Every op code survives the trip to a byte and back, and every byte at
/// most 12 survives the trip to an op code and back.
pub proof fn lemma_op_code_roundtrip(op: ArcOpCode, b: u8)
    ensures
        op_of_byte(op_byte(op)) == Some(op),
        b <= 12 ==> op_byte(op_of_byte(b).unwrap()) == b,
{
}

/// An 8-byte token: `[op_code, p1, p2, p3, p4, p5, p6, p7]`.
#[derive(Debug, Clone, Copy, PartialEq, Eq, Hash)]
pub struct ArcOpToken(pub [u8; 8]);

impl ArcOpToken {
    /// Byte `k` (0-7) of the token.
    pub open spec fn byte(self, k: int) -> u8 {
        self.0@[k]
    }

    /// Parameter `k` (0-6) of the token, that is byte `k + 1`.
    pub open spec fn spec_param(self, k: int) -> u8 {
        self.0@[k + 1]
    }

    /// Creates a token from its op code and seven parameter bytes.
    pub fn new(op_code: u8, p1: u8, p2: u8, p3: u8, p4: u8, p5: u8, p6: u8, p7: u8) -> (t: ArcOpToken)
        ensures
            t.0@ == seq![op_code, p1, p2, p3, p4, p5, p6, p7],
    {
        ArcOpToken([op_code, p1, p2, p3, p4, p5, p6, p7])
    }

    /// Creates a token from an op code and up to seven parameters; missing
    /// parameters are zero, parameters beyond the seventh are ignored.
    pub fn from_parts(op_code: u8, params: &[u8]) -> (t: ArcOpToken)
        ensures
            t.byte(0) == op_code,
            forall|k: int| 0 <= k < 7 ==> #[trigger] t.spec_param(k) == (if k < params@.len() { params@[k] } else { 0u8 }),
    {
        let n = params.len();
        let p0 = if 0 < n { params[0] } else { 0 };
        let p1 = if 1 < n { params[1] } else { 0 };
        let p2 = if 2 < n { params[2] } else { 0 };
        let p3 = if 3 < n { params[3] } else { 0 };
        let p4 = if 4 < n { params[4] } else { 0 };
        let p5 = if 5 < n { params[5] } else { 0 };
        let p6 = if 6 < n { params[6] } else { 0 };
        let t = ArcOpToken([op_code, p0, p1, p2, p3, p4, p5, p6]);
        assert forall|k: int| 0 <= k < 7 implies #[trigger] t.spec_param(k) == (if k < params@.len() { params@[k] } else { 0u8 }) by {
            if k == 0 {} else if k == 1 {} else if k == 2 {} else if k == 3 {} else if k == 4 {} else if k == 5 {} else {}
        }
        t
    }

    /// Returns the operation code byte.
    pub fn op_code(&self) -> (b: u8)
        ensures
            b == self.byte(0),
    {
        self.0[0]
    }

    /// Returns the operation, if the op code byte names one.
    pub fn op(&self) -> (r: Option<ArcOpCode>)
        ensures
            r == op_of_byte(self.byte(0)),
    {
        ArcOpCode::from_byte(self.0[0])
    }

    /// Returns parameter `index` (0-6).
    pub fn param(&self, index: usize) -> (b: u8)
        requires
            index < 7,
        ensures
            b == self.spec_param(index as int),
    {
        self.0[1 + index]
    }

    /// Returns the seven parameter bytes.
    pub fn params(&self) -> (p: [u8; 7])
        ensures
            p@ == self.0@.subrange(1, 8),
    {
        let p = [self.0[1], self.0[2], self.0[3], self.0[4], self.0[5], self.0[6], self.0[7]];
        assert(p@ =~= self.0@.subrange(1, 8));
        p
    }

    /// Returns the raw 8-byte array.
    pub fn bytes(&self) -> (b: &[u8; 8])
        ensures
            b@ == self.0@,
    {
        &self.0
    }

    /// Creates a token from a raw byte array.
    pub fn from_bytes(bytes: [u8; 8]) -> (t: ArcOpToken)
        ensures
            t.0@ == bytes@,
    {
        ArcOpToken(bytes)
    }
}

/// A program: tokens applied in order.
#[derive(Debug, Clone, PartialEq, Eq)]
pub struct ArcProgram {
    pub tokens: Vec<ArcOpToken>,
}

impl View for ArcProgram {
    type V = Seq<ArcOpToken>;

    open spec fn view(&self) -> Seq<ArcOpToken> {
        self.tokens@
    }
}

/// The text of one token in a program description: `Name([p1, ..., p7])`,
/// or `Unknown(code)` for an op code that names no operation.
pub open spec fn describe_token(t: ArcOpToken) -> Seq<char> {
    match op_of_byte(t.byte(0)) {
        Some(op) => op_name(op) + "("@ + params_text(t) + ")"@,
        None => "Unknown("@ + dec_string(t.byte(0) as nat) + ")"@,
    }
}

/// The seven parameters of a token as a bracketed, comma-separated list.
pub open spec fn params_text(t: ArcOpToken) -> Seq<char> {
    "["@ + params_list(t, 7) + "]"@
}

/// The first `k` parameters of a token, separated by `", "`.
pub open spec fn params_list(t: ArcOpToken, k: nat) -> Seq<char>
    decreases k,
{
    if k == 0 {
        Seq::empty()
    } else if k == 1 {
        dec_string(t.spec_param(0) as nat)
    } else {
        params_list(t, (k - 1) as nat) + ", "@ + dec_string(t.spec_param(k - 1) as nat)
    }
}

/// The description of a token sequence: token texts joined by `" -> "`.
pub open spec fn describe_tokens(ts: Seq<ArcOpToken>) -> Seq<char>
    decreases ts.len(),
{
    if ts.len() == 0 {
        Seq::empty()
    } else if ts.len() == 1 {
        describe_token(ts[0])
    } else {
        describe_tokens(ts.drop_last()) + " -> "@ + describe_token(ts.last())
    }
}

/// All token bytes, token after token.
pub open spec fn flatten_tokens(ts: Seq<ArcOpToken>) -> Seq<u8>
    decreases ts.len(),
{
    if ts.len() == 0 {
        Seq::empty()
    } else {
        flatten_tokens(ts.drop_last()) + ts.last().0@
    }
}

fn push_param_list(s: &mut String, t: &ArcOpToken)
    ensures
        final(s)@ == old(s)@ + params_text(*t),
{
    proof {
        reveal_strlit("[");
        reveal_strlit("]");
        reveal_strlit(", ");
    }
    push_str(s, "[");
    let ghost start = s@;
    let mut k: usize = 0;
    while k < 7
        invariant
            0 <= k <= 7,
            s@ == start + params_list(*t, k as nat),
        decreases 7 - k,
    {
        if k > 0 {
            push_str(s, ", ");
        }
        push_decimal(s, t.param(k) as usize);
        proof {
            if k == 0 {
                assert(params_list(*t, 0) =~= Seq::<char>::empty());
                assert(s@ =~= start + params_list(*t, 1));
            } else {
                assert(s@ =~= start + params_list(*t, (k + 1) as nat));
            }
        }
        k += 1;
    }
    push_str(s, "]");
    assert(s@ =~= old(s)@ + params_text(*t));
}

impl ArcProgram {
    /// Creates an empty program.
    pub fn new() -> (p: ArcProgram)
        ensures
            p@ == Seq::<ArcOpToken>::empty(),
    {
        ArcProgram { tokens: Vec::new() }
    }

    /// Creates a program from its tokens.
    pub fn from_tokens(tokens: Vec<ArcOpToken>) -> (p: ArcProgram)
        ensures
            p@ == tokens@,
    {
        ArcProgram { tokens }
    }

    /// Appends a token.
    pub fn push(&mut self, token: ArcOpToken)
        ensures
            final(self)@ == old(self)@.push(token),
    {
        self.tokens.push(token);
    }

    /// The number of tokens.
    pub fn len(&self) -> (n: usize)
        ensures
            n == self@.len(),
    {
        self.tokens.len()
    }

    /// Whether the program has no tokens.
    pub fn is_empty(&self) -> (b: bool)
        ensures
            b <==> self@.len() == 0,
    {
        self.tokens.len() == 0
    }

    /// The size of the program in bytes, 8 per token.
    pub fn byte_size(&self) -> (n: usize)
        requires
            self@.len() * 8 <= usize::MAX,
        ensures
            n == self@.len() * 8,
    {
        self.tokens.len() * 8
    }

    /// A description of the program, such as
    /// `"Rotate([0, 0, 0, 0, 0, 0, 0]) -> Fill([1, 0, 0, 0, 0, 0, 0])"`.
    pub fn describe(&self) -> (s: String)
        ensures
            s@ == describe_tokens(self@),
    {
        proof {
            reveal_strlit(" -> ");
            reveal_strlit("(");
            reveal_strlit(")");
            reveal_strlit("Unknown(");
        }
        let mut s = String::new();
        let mut i: usize = 0;
        while i < self.tokens.len()
            invariant
                0 <= i <= self@.len(),
                s@ == describe_tokens(self@.subrange(0, i as int)),
            decreases self@.len() - i,
        {
            let t = self.tokens[i];
            let ghost before = s@;
            if i > 0 {
                push_str(&mut s, " -> ");
            }
            let ghost mid = s@;
            match t.op() {
                Some(op) => {
                    push_str(&mut s, op.name());
                    push_str(&mut s, "(");
                    push_param_list(&mut s, &t);
                    push_str(&mut s, ")");
                },
                None => {
                    push_str(&mut s, "Unknown(");
                    push_decimal(&mut s, t.op_code() as usize);
                    push_str(&mut s, ")");
                },
            }
            proof {
                assert(s@ =~= mid + describe_token(t));
                let pre = self@.subrange(0, i as int);
                let post = self@.subrange(0, i + 1);
                assert(post.drop_last() =~= pre);
                assert(post.last() == t);
                if i == 0 {
                    assert(describe_tokens(pre) =~= Seq::<char>::empty());
                    assert(s@ =~= describe_tokens(post));
                } else {
                    assert(s@ =~= describe_tokens(post));
                }
            }
            i += 1;
        }
        assert(self@.subrange(0, self@.len() as int) =~= self@);
        s
    }
}

impl Default for ArcProgram {
    fn default() -> (p: ArcProgram)
        ensures
            p@ == Seq::<ArcOpToken>::empty(),
    {
        ArcProgram::new()
    }
}

/// Serializes a program to its token bytes, 8 per token.
pub fn serialize_program(program: &ArcProgram) -> (bytes: Vec<u8>)
    requires
        program@.len() * 8 <= usize::MAX,
    ensures
        bytes@ == flatten_tokens(program@),
        bytes@.len() == program@.len() * 8,
{
    let mut out: Vec<u8> = Vec::new();
    let mut i: usize = 0;
    while i < program.tokens.len()
        invariant
            0 <= i <= program@.len(),
            out@ == flatten_tokens(program@.subrange(0, i as int)),
            out@.len() == i * 8,
        decreases program@.len() - i,
    {
        let t = program.tokens[i];
        let ghost before = out@;
        let mut k: usize = 0;
        while k < 8
            invariant
                0 <= k <= 8,
                out@ == before + t.0@.subrange(0, k as int),
            decreases 8 - k,
        {
            out.push(t.0[k]);
            assert(out@ =~= before + t.0@.subrange(0, k + 1));
            k += 1;
        }
        proof {
            let post = program@.subrange(0, i + 1);
            assert(post.drop_last() =~= program@.subrange(0, i as int));
            assert(t.0@.subrange(0, 8) =~= t.0@);
        }
        i += 1;
    }
    assert(program@.subrange(0, program@.len() as int) =~= program@);
    out
}

/// Deserializes a program from bytes; `None` when the length is not a multiple of 8.
pub fn deserialize_program(bytes: &[u8]) -> (r: Option<ArcProgram>)
    ensures
        r is Some <==> bytes@.len() % 8 == 0,
        r matches Some(p) ==> p@.len() == bytes@.len() / 8 && forall|k: int| 0 <= k < p@.len()
            ==> #[trigger] p@[k].0@ == bytes@.subrange(8 * k, 8 * k + 8),
{
    if bytes.len() % 8 != 0 {
        return None;
    }
    let n = bytes.len() / 8;
    let mut tokens: Vec<ArcOpToken> = Vec::new();
    let mut i: usize = 0;
    while i < n
        invariant
            n == bytes@.len() / 8,
            bytes@.len() % 8 == 0,
            0 <= i <= n,
            tokens@.len() == i,
            forall|k: int| 0 <= k < i ==> #[trigger] tokens@[k].0@ == bytes@.subrange(8 * k, 8 * k + 8),
        decreases n - i,
    {
        let len = bytes.len();
        assert(8 * i + 8 <= len) by (nonlinear_arith)
            requires i < n, n == len / 8;
        let b = 8 * i;
        let t = ArcOpToken([bytes[b], bytes[b + 1], bytes[b + 2], bytes[b + 3], bytes[b + 4], bytes[b + 5], bytes[b + 6], bytes[b + 7]]);
        assert(t.0@ =~= bytes@.subrange(8 * i, 8 * i + 8));
        tokens.push(t);
        i += 1;
    }
    Some(ArcProgram { tokens })
}

/// Two tokens with the same bytes are the same token.
proof fn lemma_token_ext(a: ArcOpToken, b: ArcOpToken)
    requires
        a.0@ == b.0@,
    ensures
        a == b,
{
    assert(a.0 =~= b.0);
}

/// The bytes of a program are 8 per token, token `k` at bytes `8k..8k+8`.
pub proof fn lemma_flatten_chunks(ts: Seq<ArcOpToken>)
    ensures
        flatten_tokens(ts).len() == ts.len() * 8,
        forall|k: int| 0 <= k < ts.len() ==> #[trigger] flatten_tokens(ts).subrange(8 * k, 8 * k + 8) == ts[k].0@,
    decreases ts.len(),
{
    if ts.len() > 0 {
        lemma_flatten_chunks(ts.drop_last());
        let f = flatten_tokens(ts);
        let f0 = flatten_tokens(ts.drop_last());
        assert forall|k: int| 0 <= k < ts.len() implies #[trigger] f.subrange(8 * k, 8 * k + 8) == ts[k].0@ by {
            if k < ts.len() - 1 {
                assert(f0.subrange(8 * k, 8 * k + 8) == ts.drop_last()[k].0@);
                assert(f.subrange(8 * k, 8 * k + 8) =~= f0.subrange(8 * k, 8 * k + 8));
            } else {
                assert(f.subrange(8 * k, 8 * k + 8) =~= ts.last().0@);
            }
        }
    }
}

/// Deserializing the bytes of a serialized program gives the program back.
pub proof fn lemma_serialize_roundtrip(ts: Seq<ArcOpToken>, bytes: Seq<u8>, back: Seq<ArcOpToken>)
    requires
        bytes == flatten_tokens(ts),
        back.len() == bytes.len() / 8,
        forall|k: int| 0 <= k < back.len() ==> #[trigger] back[k].0@ == bytes.subrange(8 * k, 8 * k + 8),
    ensures
        bytes.len() % 8 == 0,
        back == ts,
{
    lemma_flatten_chunks(ts);
    assert(bytes.len() == ts.len() * 8);
    assert((ts.len() * 8) / 8 == ts.len()) by (nonlinear_arith);
    assert((ts.len() * 8) % 8 == 0) by (nonlinear_arith);
    assert forall|k: int| 0 <= k < ts.len() implies back[k] == ts[k] by {
        lemma_token_ext(back[k], ts[k]);
    }
    assert(back =~= ts);
}

} // verus!
