//! The little language in which the options are set: `estimate` values
//! such as `+lit,-bin`, and commands such as `estimate=+lit;estimate=par`.

use crate::ast::{EstimateContext, EvalOptions, CTX_BIN, CTX_LIT, CTX_PAR};
use crate::parser::{whitespace_at, whitespace_len};
use std::ops::Range;
use vstd::prelude::*;
use vstd::string::StringSliceAdditionalSpecFns;
use vstd::utf8::encode_utf8;

verus! {

/// What was not understood.
#[derive(Clone, Copy, Debug, PartialEq, Eq, Structural)]
pub enum UnexpectedKind {
    /// A value of `estimate` that is none of `lit`, `par`, `bin`, with or
    /// without `+` or `-`.
    Value,
    /// A key other than `estimate`.
    Key,
}

/// A piece of an argument that was not understood and has been passed
/// over: which argument, and the byte range of the piece in it.
#[derive(Debug, PartialEq, Eq)]
pub struct Unexpected {
    pub kind: UnexpectedKind,
    pub arg: usize,
    pub range: Range<usize>,
}

/// Where the first byte `sep` from `i` on and before `to` stands, or `to`.
pub open spec fn find_byte(s: Seq<u8>, sep: u8, i: int, to: int) -> int
    decreases to - i,
{
    if i < to && s[i] != sep {
        find_byte(s, sep, i + 1, to)
    } else if i < to {
        i
    } else {
        to
    }
}

/// The position after the white space that starts at `from`, as far as
/// it lies before `to`.
pub open spec fn trim_start(s: Seq<u8>, from: int, to: int) -> int
    decreases to - from,
{
    let w = whitespace_len(s, from);
    if w > 0 && from + w <= to {
        trim_start(s, from + w, to)
    } else {
        from
    }
}

/// The end of the last byte from `i` on and before `to` that is not part
/// of white space, or `last` where there is none.
pub open spec fn content_end(s: Seq<u8>, i: int, to: int, last: int) -> int
    decreases to - i,
{
    let w = whitespace_len(s, i);
    if i >= to {
        last
    } else if w > 0 && i + w <= to {
        content_end(s, i + w, to, last)
    } else {
        content_end(s, i + 1, to, i + 1)
    }
}

/// The range between `from` and `to` without the white space at its start
/// and at its end.
pub open spec fn trimmed(s: Seq<u8>, from: int, to: int) -> (int, int) {
    let start = trim_start(s, from, to);
    (start, content_end(s, start, to, start))
}

/// The bytes of `lit`.
pub open spec fn name_lit() -> Seq<u8> {
    seq![108u8, 105u8, 116u8]
}

/// The bytes of `par`.
pub open spec fn name_par() -> Seq<u8> {
    seq![112u8, 97u8, 114u8]
}

/// The bytes of `bin`.
pub open spec fn name_bin() -> Seq<u8> {
    seq![98u8, 105u8, 110u8]
}

/// What a value does to the flags: the flag it names, as one of `CTX_LIT`,
/// `CTX_PAR` and `CTX_BIN`, and whether it sets or clears it. A name alone
/// or with `+` sets, with `-` clears.
pub open spec fn value_effect(token: Seq<u8>) -> Option<(u32, bool)> {
    let signed = token.len() == 4 && (token[0] == 43 || token[0] == 45);
    let name = if signed {
        token.skip(1)
    } else {
        token
    };
    let set = !(signed && token[0] == 45);
    if name == name_lit() {
        Some((CTX_LIT, set))
    } else if name == name_par() {
        Some((CTX_PAR, set))
    } else if name == name_bin() {
        Some((CTX_BIN, set))
    } else {
        None
    }
}

/// The flags after one of them has been set or cleared.
pub open spec fn with_flag(ctx: EstimateContext, flag: u32, set: bool) -> EstimateContext {
    EstimateContext {
        literal: if flag == CTX_LIT {
            set
        } else {
            ctx.literal
        },
        paren: if flag == CTX_PAR {
            set
        } else {
            ctx.paren
        },
        binary: if flag == CTX_BIN {
            set
        } else {
            ctx.binary
        },
    }
}

/// A warning about the bytes between `from` and `to` of argument `arg`.
pub open spec fn unexpected(kind: UnexpectedKind, arg: usize, from: int, to: int) -> Unexpected {
    Unexpected { kind, arg, range: Range { start: from as usize, end: to as usize } }
}

/// The flags after the values between `from` and `to`, which are
/// separated by commas and may have white space around them, have been
/// applied from left to right; and the values that were not understood.
pub open spec fn apply_values(ctx: EstimateContext, s: Seq<u8>, from: int, to: int, arg: usize) -> (
    EstimateContext,
    Seq<Unexpected>,
)
    decreases to - from,
{
    let end = find_byte(s, 44, from, to);
    let (a, z) = trimmed(s, from, end);
    let (next, unknown) = match value_effect(s.subrange(a, z)) {
        Some((flag, set)) => (with_flag(ctx, flag, set), Seq::<Unexpected>::empty()),
        None => (ctx, seq![unexpected(UnexpectedKind::Value, arg, a, z)]),
    };
    if from <= end < to {
        let (last, more) = apply_values(next, s, end + 1, to, arg);
        (last, unknown + more)
    } else {
        (next, unknown)
    }
}

/// The flags after the values of each argument from the `k`-th on have
/// been applied, argument by argument.
pub open spec fn apply_args(ctx: EstimateContext, args: Seq<String>, k: int) -> (
    EstimateContext,
    Seq<Unexpected>,
)
    decreases args.len() - k,
{
    if 0 <= k < args.len() {
        let bytes = encode_utf8(args[k]@);
        let (next, unknown) = apply_values(ctx, bytes, 0, bytes.len() as int, k as usize);
        let (last, more) = apply_args(next, args, k + 1);
        (last, unknown + more)
    } else {
        (ctx, Seq::empty())
    }
}

/// The bytes of `estimate`.
pub open spec fn key_estimate() -> Seq<u8> {
    seq![101u8, 115u8, 116u8, 105u8, 109u8, 97u8, 116u8, 101u8]
}

/// What one command between `from` and `to` does: `estimate=values`
/// applies the values, any other key is not understood.
pub open spec fn apply_command(ctx: EstimateContext, s: Seq<u8>, from: int, to: int) -> (
    EstimateContext,
    Seq<Unexpected>,
) {
    let (a, z) = trimmed(s, from, to);
    let eq = find_byte(s, 61, a, z);
    let (ka, kz) = trimmed(s, a, eq);
    let (va, vz) = if eq < z {
        trimmed(s, eq + 1, z)
    } else {
        (z, z)
    };
    if s.subrange(ka, kz) == key_estimate() {
        apply_values(ctx, s, va, vz, 0)
    } else {
        (ctx, seq![unexpected(UnexpectedKind::Key, 0, ka, kz)])
    }
}

/// The flags after the commands between `from` and `to`, which are
/// separated by semicolons, have been applied from left to right; and
/// what was not understood.
pub open spec fn apply_commands(ctx: EstimateContext, s: Seq<u8>, from: int, to: int) -> (
    EstimateContext,
    Seq<Unexpected>,
)
    decreases to - from,
{
    let end = find_byte(s, 59, from, to);
    let (next, unknown) = apply_command(ctx, s, from, end);
    if from <= end < to {
        let (last, more) = apply_commands(next, s, end + 1, to);
        (last, unknown + more)
    } else {
        (next, unknown)
    }
}

pub proof fn lemma_trimmed(s: Seq<u8>, from: int, to: int)
    requires
        0 <= from <= to <= s.len(),
    ensures
        from <= trimmed(s, from, to).0 <= trimmed(s, from, to).1 <= to,
{
    lemma_trim_start(s, from, to);
    let start = trim_start(s, from, to);
    lemma_content_end(s, start, to, start);
}

pub proof fn lemma_trim_start(s: Seq<u8>, from: int, to: int)
    requires
        0 <= from <= to <= s.len(),
    ensures
        from <= trim_start(s, from, to) <= to,
    decreases to - from,
{
    let w = whitespace_len(s, from);
    if w > 0 && from + w <= to {
        lemma_trim_start(s, from + w, to);
    }
}

pub proof fn lemma_content_end(s: Seq<u8>, i: int, to: int, last: int)
    requires
        0 <= last <= i <= to <= s.len(),
    ensures
        last <= content_end(s, i, to, last) <= to,
    decreases to - i,
{
    let w = whitespace_len(s, i);
    if i >= to {
    } else if w > 0 && i + w <= to {
        lemma_content_end(s, i + w, to, last);
    } else {
        lemma_content_end(s, i + 1, to, i + 1);
    }
}

fn find(b: &[u8], sep: u8, i: usize, to: usize) -> (r: usize)
    requires
        i <= to <= b.len(),
    ensures
        r == find_byte(b@, sep, i as int, to as int),
        i <= r <= to,
{
    let mut j = i;
    while j < to && b[j] != sep
        invariant
            i <= j <= to <= b.len(),
            find_byte(b@, sep, i as int, to as int) == find_byte(b@, sep, j as int, to as int),
        decreases to - j,
    {
        j += 1;
    }
    j
}

fn trim(b: &[u8], from: usize, to: usize) -> (r: (usize, usize))
    requires
        from <= to <= b.len(),
    ensures
        r.0 == trimmed(b@, from as int, to as int).0,
        r.1 == trimmed(b@, from as int, to as int).1,
        from <= r.0 <= r.1 <= to,
{
    proof {
        lemma_trimmed(b@, from as int, to as int);
    }
    let mut a = from;
    while whitespace_at(b, a) > 0 && whitespace_at(b, a) <= to - a
        invariant
            from <= a <= to <= b.len(),
            trim_start(b@, from as int, to as int) == trim_start(b@, a as int, to as int),
        decreases to - a,
    {
        a += whitespace_at(b, a);
    }
    let mut i = a;
    let mut last = a;
    while i < to
        invariant
            a <= last <= i <= to <= b.len(),
            content_end(b@, a as int, to as int, a as int) == content_end(
                b@,
                i as int,
                to as int,
                last as int,
            ),
        decreases to - i,
    {
        let w = whitespace_at(b, i);
        if w > 0 && w <= to - i {
            i += w;
        } else {
            i += 1;
            last = i;
        }
    }
    (a, last)
}

fn is_name(b: &[u8], a: usize, c0: u8, c1: u8, c2: u8) -> (r: bool)
    requires
        a + 3 <= b.len(),
    ensures
        r == (b@.subrange(a as int, a + 3) == seq![c0, c1, c2]),
{
    let r = b[a] == c0 && b[a + 1] == c1 && b[a + 2] == c2;
    proof {
        let t = b@.subrange(a as int, a + 3);
        if r {
            assert(t =~= seq![c0, c1, c2]);
        } else {
            assert(t[0] == b@[a as int] && t[1] == b@[a + 1] && t[2] == b@[a + 2]);
            assert(seq![c0, c1, c2][0] == c0 && seq![c0, c1, c2][1] == c1 && seq![c0, c1, c2][2] == c2);
        }
    }
    r
}

fn effect(b: &[u8], a: usize, z: usize) -> (r: Option<(u32, bool)>)
    requires
        a <= z <= b.len(),
    ensures
        r == value_effect(b@.subrange(a as int, z as int)),
{
    let ghost token = b@.subrange(a as int, z as int);
    let signed = z - a == 4 && (b[a] == 43 || b[a] == 45);
    let start = if signed {
        a + 1
    } else {
        a
    };
    let set = !(signed && b[a] == 45);
    proof {
        let name = if signed {
            token.skip(1)
        } else {
            token
        };
        assert(name =~= b@.subrange(start as int, z as int));
        assert(name_lit().len() == 3 && name_par().len() == 3 && name_bin().len() == 3);
    }
    if z - start != 3 {
        return None;
    }
    if is_name(b, start, 108, 105, 116) {
        Some((CTX_LIT, set))
    } else if is_name(b, start, 112, 97, 114) {
        Some((CTX_PAR, set))
    } else if is_name(b, start, 98, 105, 110) {
        Some((CTX_BIN, set))
    } else {
        None
    }
}

fn is_estimate(b: &[u8], a: usize, z: usize) -> (r: bool)
    requires
        a <= z <= b.len(),
    ensures
        r == (b@.subrange(a as int, z as int) == key_estimate()),
{
    let ghost token = b@.subrange(a as int, z as int);
    let ghost key = key_estimate();
    if z - a != 8 {
        proof {
            assert(key.len() == 8);
        }
        return false;
    }
    let r = b[a] == 101 && b[a + 1] == 115 && b[a + 2] == 116 && b[a + 3] == 105 && b[a + 4] == 109
        && b[a + 5] == 97 && b[a + 6] == 116 && b[a + 7] == 101;
    proof {
        if r {
            assert(token =~= key);
        } else {
            assert(token[0] == b@[a + 0] && token[1] == b@[a + 1] && token[2] == b@[a + 2]
                && token[3] == b@[a + 3] && token[4] == b@[a + 4] && token[5] == b@[a + 5]
                && token[6] == b@[a + 6] && token[7] == b@[a + 7]);
            assert(key[0] == 101 && key[1] == 115 && key[2] == 116 && key[3] == 105 && key[4] == 109
                && key[5] == 97 && key[6] == 116 && key[7] == 101);
        }
    }
    r
}

fn set_flag(ctx: &mut EstimateContext, flag: u32, set: bool)
    requires
        flag == CTX_LIT || flag == CTX_PAR || flag == CTX_BIN,
    ensures
        *final(ctx) == with_flag(*old(ctx), flag, set),
{
    let bits = ctx.get_bits();
    let changed = if set {
        bits | flag
    } else {
        bits & !flag
    };
    assert((changed & 1 != 0) == (if flag == 1 {
        set
    } else {
        bits & 1 != 0
    }) && (changed & 2 != 0) == (if flag == 2 {
        set
    } else {
        bits & 2 != 0
    }) && (changed & 4 != 0) == (if flag == 4 {
        set
    } else {
        bits & 4 != 0
    })) by (bit_vector)
        requires
            flag == 1 || flag == 2 || flag == 4,
            changed == if set {
                bits | flag
            } else {
                bits & !flag
            },
    ;
    ctx.set_bits(changed);
}

fn run_values(
    ctx: &mut EstimateContext,
    b: &[u8],
    from: usize,
    to: usize,
    arg: usize,
    out: &mut Vec<Unexpected>,
)
    requires
        from <= to <= b.len(),
    ensures
        *final(ctx) == apply_values(*old(ctx), b@, from as int, to as int, arg).0,
        final(out)@ == old(out)@ + apply_values(*old(ctx), b@, from as int, to as int, arg).1,
    decreases to - from,
{
    let end = find(b, 44, from, to);
    let (a, z) = trim(b, from, end);
    match effect(b, a, z) {
        Some((flag, set)) => {
            set_flag(ctx, flag, set);
        },
        None => {
            out.push(Unexpected { kind: UnexpectedKind::Value, arg, range: Range { start: a, end: z } });
        },
    }
    if end < to {
        run_values(ctx, b, end + 1, to, arg, out);
    }
    proof {
        let spec = apply_values(*old(ctx), b@, from as int, to as int, arg);
        assert(out@ =~= old(out)@ + spec.1);
    }
}

fn run_command(ctx: &mut EstimateContext, b: &[u8], from: usize, to: usize, out: &mut Vec<Unexpected>)
    requires
        from <= to <= b.len(),
    ensures
        *final(ctx) == apply_command(*old(ctx), b@, from as int, to as int).0,
        final(out)@ == old(out)@ + apply_command(*old(ctx), b@, from as int, to as int).1,
{
    let (a, z) = trim(b, from, to);
    let eq = find(b, 61, a, z);
    let (ka, kz) = trim(b, a, eq);
    let (va, vz) = if eq < z {
        trim(b, eq + 1, z)
    } else {
        (z, z)
    };
    if is_estimate(b, ka, kz) {
        run_values(ctx, b, va, vz, 0, out);
    } else {
        out.push(Unexpected { kind: UnexpectedKind::Key, arg: 0, range: Range { start: ka, end: kz } });
        proof {
            assert(out@ =~= old(out)@ + apply_command(*old(ctx), b@, from as int, to as int).1);
        }
    }
}

fn run_commands(ctx: &mut EstimateContext, b: &[u8], from: usize, to: usize, out: &mut Vec<Unexpected>)
    requires
        from <= to <= b.len(),
    ensures
        *final(ctx) == apply_commands(*old(ctx), b@, from as int, to as int).0,
        final(out)@ == old(out)@ + apply_commands(*old(ctx), b@, from as int, to as int).1,
    decreases to - from,
{
    let end = find(b, 59, from, to);
    run_command(ctx, b, from, end, out);
    if end < to {
        run_commands(ctx, b, end + 1, to, out);
    }
    proof {
        let spec = apply_commands(*old(ctx), b@, from as int, to as int);
        assert(out@ =~= old(out)@ + spec.1);
    }
}

impl EstimateContext {
    /// Applies the values of each argument, which are separated by commas:
    /// `lit`, `par` and `bin`, alone or with `+`, set the flag they name,
    /// and with `-` clear it. Returns the values that were not understood;
    /// they change nothing.
    pub fn update(&mut self, arg: Vec<String>) -> (unknown: Vec<Unexpected>)
        ensures
            *final(self) == apply_args(*old(self), arg@, 0).0,
            unknown@ == apply_args(*old(self), arg@, 0).1,
    {
        let mut out: Vec<Unexpected> = Vec::new();
        let mut k: usize = 0;
        while k < arg.len()
            invariant
                k <= arg.len(),
                apply_args(*old(self), arg@, 0).0 == apply_args(*self, arg@, k as int).0,
                apply_args(*old(self), arg@, 0).1 == out@ + apply_args(*self, arg@, k as int).1,
            decreases arg.len() - k,
        {
            let b = arg[k].as_str().as_bytes();
            let n = b.len();
            let ghost before = *self;
            let ghost had = out@;
            run_values(self, b, 0, n, k, &mut out);
            k += 1;
            proof {
                let step = apply_values(before, b@, 0, n as int, (k - 1) as usize);
                let rest = apply_args(*self, arg@, k as int);
                assert(apply_args(before, arg@, k - 1).1 == step.1 + rest.1);
                assert(had + (step.1 + rest.1) =~= (had + step.1) + rest.1);
            }
        }
        proof {
            assert(out@ + Seq::<Unexpected>::empty() =~= out@);
        }
        out
    }
}

impl EvalOptions {
    /// Applies the values of `estimate`; see [`EstimateContext::update`].
    pub fn set_estimate(&mut self, arg: Vec<String>) -> (unknown: Vec<Unexpected>)
        ensures
            final(self).estimate == apply_args(old(self).estimate, arg@, 0).0,
            unknown@ == apply_args(old(self).estimate, arg@, 0).1,
    {
        self.estimate.update(arg)
    }

    /// The options after the values of `estimate` have been applied; what
    /// is not understood is passed over.
    pub fn with_estimate(self, arg: Vec<String>) -> (r: Self)
        ensures
            r.estimate == apply_args(self.estimate, arg@, 0).0,
    {
        let mut r = self;
        let _ = r.set_estimate(arg);
        r
    }

    /// Applies commands of the form `key=value`, separated by semicolons.
    /// The only key is `estimate`. Returns what was not understood.
    pub fn update(&mut self, arg: &str) -> (unknown: Vec<Unexpected>)
        ensures
            final(self).estimate == apply_commands(
                old(self).estimate,
                arg.spec_bytes(),
                0,
                arg.spec_bytes().len() as int,
            ).0,
            unknown@ == apply_commands(
                old(self).estimate,
                arg.spec_bytes(),
                0,
                arg.spec_bytes().len() as int,
            ).1,
    {
        let b = arg.as_bytes();
        let n = b.len();
        let mut out: Vec<Unexpected> = Vec::new();
        run_commands(&mut self.estimate, b, 0, n, &mut out);
        out
    }
}

/// What the command line says: the values given for `estimate`, in the
/// order in which they were given.
#[derive(Debug)]
pub struct Args {
    pub estimate: Vec<String>,
}

impl Args {
    /// The options that the command line asks for, starting from none
    /// set, and what of it was not understood.
    pub fn options(self) -> (r: (EvalOptions, Vec<Unexpected>))
        ensures
            r.0.estimate == apply_args(
                (EstimateContext { literal: false, paren: false, binary: false }),
                self.estimate@,
                0,
            ).0,
            r.1@ == apply_args(
                (EstimateContext { literal: false, paren: false, binary: false }),
                self.estimate@,
                0,
            ).1,
    {
        let mut opts = EvalOptions::new();
        let unknown = opts.set_estimate(self.estimate);
        (opts, unknown)
    }
}

} // verus!
