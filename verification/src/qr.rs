//! QR codes of pairing addresses.
use vstd::prelude::*;

verus! {

/// The QR code type of `qrcodegen`.
#[verifier::external_type_specification]
#[verifier::external_body]
pub struct ExQrCode(qrcodegen::QrCode);

/// The error type of `qrcodegen`.
#[verifier::external_type_specification]
#[verifier::external_body]
pub struct ExDataTooLong(qrcodegen::DataTooLong);

/// The modules of a QR code, row by row from the top; true is dark.
pub uninterp spec fn qr_rows(code: qrcodegen::QrCode) -> Seq<Seq<bool>>;

/// The modules of the QR code that `qrcodegen::QrCode::encode_text` makes of a
/// text at medium error correction; none where the text is too long.
pub uninterp spec fn qr_medium(text: Seq<char>) -> Option<Seq<Seq<bool>>>;

/// `qrcodegen::QrCode::encode_text` at medium error correction.
#[verifier::external_body]
fn encode_text(text: &str) -> (r: Result<qrcodegen::QrCode, qrcodegen::DataTooLong>)
    ensures
        match r {
            Ok(code) => qr_medium(text@) == Some(qr_rows(code)),
            Err(_) => qr_medium(text@) is None,
        },
{
    qrcodegen::QrCode::encode_text(text, qrcodegen::QrCodeEcc::Medium)
}

/// `qrcodegen::QrCode::size`: the width and height in modules, between 21 and
/// 177.
#[verifier::external_body]
fn size(code: &qrcodegen::QrCode) -> (r: i32)
    ensures
        21 <= r <= 177,
        qr_rows(*code).len() == r,
        forall|y: int| 0 <= y < r ==> (#[trigger] qr_rows(*code)[y]).len() == r,
{
    code.size()
}

/// `qrcodegen::QrCode::get_module`: the module at a column and a row that the
/// code has.
#[verifier::external_body]
fn module(code: &qrcodegen::QrCode, x: i32, y: i32) -> (r: bool)
    requires
        0 <= y < qr_rows(*code).len(),
        0 <= x < qr_rows(*code)[y as int].len(),
    ensures
        r == qr_rows(*code)[y as int][x as int],
{
    code.get_module(x, y)
}

/// The modules of a square code in one row-major list.
pub open spec fn flat(rows: Seq<Seq<bool>>) -> Seq<bool>
    decreases rows.len(),
{
    if rows.len() == 0 {
        Seq::empty()
    } else {
        flat(rows.drop_last()) + rows.last()
    }
}

/// A QR code as plain values: its size and its modules in row-major order.
#[derive(Debug)]
pub struct Matrix {
    pub size: u16,
    pub modules: Vec<bool>,
}

/// The QR code of a text, or nothing where it is too long.
pub fn matrix(text: &str) -> (r: Option<Matrix>)
    ensures
        match r {
            Some(m) => qr_medium(text@) matches Some(rows) && m.size == rows.len() && 21 <= m.size
                <= 177 && m.modules@ == flat(rows) && m.modules@.len() == m.size * m.size,
            None => qr_medium(text@) is None,
        },
{
    match encode_text(text) {
        Err(_) => None,
        Ok(code) => {
            let n = size(&code);
            let ghost rows = qr_rows(code);
            let mut modules: Vec<bool> = Vec::new();
            let mut y: i32 = 0;
            while y < n
                invariant
                    0 <= y <= n <= 177,
                    rows == qr_rows(code),
                    rows.len() == n,
                    forall|y: int| 0 <= y < n ==> (#[trigger] rows[y]).len() == n,
                    modules@ == flat(rows.take(y as int)),
                    modules@.len() == y * n,
                decreases n - y,
            {
                let mut x: i32 = 0;
                let ghost before = modules@;
                assert(before + rows[y as int].take(0) =~= before);
                while x < n
                    invariant
                        0 <= x <= n <= 177,
                        0 <= y < n,
                        rows == qr_rows(code),
                        rows.len() == n,
                        rows[y as int].len() == n,
                        modules@ == before + rows[y as int].take(x as int),
                    decreases n - x,
                {
                    let row = Ghost(rows[y as int]);
                    modules.push(module(&code, x, y));
                    assert(row@.take(x + 1) =~= row@.take(x as int).push(row@[x as int]));
                    assert(modules@ =~= before + row@.take(x + 1));
                    x += 1;
                }
                proof {
                    let next = rows.take(y + 1);
                    assert(next.drop_last() =~= rows.take(y as int));
                    assert(next.last() == rows[y as int]);
                    assert(rows[y as int].take(n as int) =~= rows[y as int]);
                    assert((y + 1) * n == y * n + n) by (nonlinear_arith);
                }
                y += 1;
            }
            assert(rows.take(rows.len() as int) =~= rows);
            Some(Matrix { size: n as u16, modules })
        },
    }
}

// ---------------------------------------------------------------------------
// Packing

/// One bit as a number; nothing is behind the end.
pub open spec fn bit(bits: Seq<bool>, i: int) -> int {
    if 0 <= i < bits.len() && bits[i] {
        1
    } else {
        0
    }
}

/// Eight bits as a byte, the first one the most significant.
pub open spec fn octet(bits: Seq<bool>, k: int) -> int {
    128 * bit(bits, 8 * k) + 64 * bit(bits, 8 * k + 1) + 32 * bit(bits, 8 * k + 2) + 16 * bit(
        bits,
        8 * k + 3,
    ) + 8 * bit(bits, 8 * k + 4) + 4 * bit(bits, 8 * k + 5) + 2 * bit(bits, 8 * k + 6) + bit(
        bits,
        8 * k + 7,
    )
}

/// Bits packed into bytes, the last byte filled up with zeros.
pub open spec fn packed(bits: Seq<bool>) -> Seq<u8> {
    Seq::new(((bits.len() + 7) / 8) as nat, |k: int| octet(bits, k) as u8)
}

fn bit_of(bits: &Vec<bool>, at: usize, i: usize) -> (r: u8)
    requires
        at <= bits@.len(),
    ensures
        r == bit(bits@, at + i),
{
    if i < bits.len() - at && bits[at + i] {
        1
    } else {
        0
    }
}

/// Packs bits into bytes.
pub fn pack(bits: &Vec<bool>) -> (r: Vec<u8>)
    ensures
        r@ == packed(bits@),
{
    let mut r: Vec<u8> = Vec::new();
    let mut at: usize = 0;
    while at < bits.len()
        invariant
            at == bits@.len() || at == 8 * r@.len(),
            at <= bits@.len(),
            8 * (r@.len() - 1) < bits@.len(),
            at == bits@.len() ==> bits@.len() <= 8 * r@.len(),
            forall|j: int| 0 <= j < r@.len() ==> r@[j] == octet(bits@, j) as u8,
        decreases bits@.len() - at,
    {
        let byte: u8 = 128 * bit_of(bits, at, 0) + 64 * bit_of(bits, at, 1) + 32 * bit_of(
            bits,
            at,
            2,
        ) + 16 * bit_of(bits, at, 3) + 8 * bit_of(bits, at, 4) + 4 * bit_of(bits, at, 5) + 2
            * bit_of(bits, at, 6) + bit_of(bits, at, 7);
        r.push(byte);
        at = if bits.len() - at > 8 {
            at + 8
        } else {
            bits.len()
        };
    }
    assert(r@ =~= packed(bits@));
    r
}

// ---------------------------------------------------------------------------
// Laws

/// The modules of a square code stand row by row: the one at a column and a
/// row is found at the row times the size plus the column.
pub proof fn law_modules_stand_row_by_row(rows: Seq<Seq<bool>>, n: int, x: int, y: int)
    requires
        forall|k: int| 0 <= k < rows.len() ==> (#[trigger] rows[k]).len() == n,
        0 <= x < n,
        0 <= y < rows.len(),
    ensures
        flat(rows).len() == rows.len() * n,
        0 <= y * n + x < flat(rows).len(),
        flat(rows)[y * n + x] == rows[y][x],
    decreases rows.len(),
{
    let rest = rows.drop_last();
    lemma_flat_len(rest, n);
    lemma_flat_len(rows, n);
    let last = rows.len() - 1;
    assert(rows[last].len() == n);
    assert(flat(rows) == flat(rest) + rows[last]);
    if y < last {
        assert forall|k: int| 0 <= k < rest.len() implies (#[trigger] rest[k]).len() == n by {
            assert(rest[k] == rows[k]);
        }
        law_modules_stand_row_by_row(rest, n, x, y);
        assert(rest[y] == rows[y]);
    } else {
        assert(y * n == rest.len() * n);
    }
    assert(0 <= y * n && y * n + n <= rows.len() * n) by (nonlinear_arith)
        requires
            0 <= y < rows.len(),
            n > 0,
    ;
}

proof fn lemma_flat_len(rows: Seq<Seq<bool>>, n: int)
    requires
        forall|k: int| 0 <= k < rows.len() ==> (#[trigger] rows[k]).len() == n,
    ensures
        flat(rows).len() == rows.len() * n,
    decreases rows.len(),
{
    if rows.len() > 0 {
        let rest = rows.drop_last();
        assert forall|k: int| 0 <= k < rest.len() implies (#[trigger] rest[k]).len() == n by {
            assert(rest[k] == rows[k]);
        }
        lemma_flat_len(rest, n);
        assert(rows[rows.len() - 1].len() == n);
        assert(rows.len() * n == rest.len() * n + n) by (nonlinear_arith)
            requires
                rows.len() == rest.len() + 1,
        ;
    } else {
        assert(rows.len() * n == 0) by (nonlinear_arith)
            requires
                rows.len() == 0,
        ;
    }
}

/// Eight bits make a byte, the first of them worth 128 and each further one
/// half of the one before; a byte that is not full is filled up with zeros.
pub proof fn law_bits_are_packed_from_the_top(bits: Seq<bool>, k: int)
    requires
        0 <= k < packed(bits).len(),
    ensures
        packed(bits).len() == (bits.len() + 7) / 8,
        ({
            let byte = packed(bits)[k];
            let set = |i: int| 8 * k + i < bits.len() && bits[8 * k + i];
            &&& byte >= 128 <==> set(0)
            &&& (byte / 64) % 2 == 1 <==> set(1)
            &&& (byte / 32) % 2 == 1 <==> set(2)
            &&& (byte / 16) % 2 == 1 <==> set(3)
            &&& (byte / 8) % 2 == 1 <==> set(4)
            &&& (byte / 4) % 2 == 1 <==> set(5)
            &&& (byte / 2) % 2 == 1 <==> set(6)
            &&& byte % 2 == 1 <==> set(7)
        }),
{
    let byte = packed(bits)[k];
    assert(byte == octet(bits, k) as u8);
    assert(0 <= octet(bits, k) < 256);
}

} // verus!
