use vstd::prelude::*;
use vstd::utf8::{decode_utf8, valid_utf8};

verus! {

/// How a property value is shown: text, a list of big-endian 32-bit words, or raw bytes.
#[derive(Debug, Clone, PartialEq, Eq)]
pub enum DisplayValue {
    Text(String),
    IntList(Vec<u32>),
    Raw(Vec<u8>),
}

/// The mathematical content of a `DisplayValue`.
pub enum DisplayModel {
    Text(Seq<char>),
    IntList(Seq<u32>),
    Raw(Seq<u8>),
}

impl View for DisplayValue {
    type V = DisplayModel;

    open spec fn view(&self) -> DisplayModel {
        match self {
            DisplayValue::Text(s) => DisplayModel::Text(s@),
            DisplayValue::IntList(v) => DisplayModel::IntList(v@),
            DisplayValue::Raw(v) => DisplayModel::Raw(v@),
        }
    }
}

/// A byte that may stand in displayed text (no ASCII control character).
pub open spec fn is_text_byte(b: u8) -> bool {
    b >= 0x20 && b != 0x7f
}

/// The bytes before the final NUL: printable runs, each non-empty, separated by single NULs.
pub open spec fn is_text_body(body: Seq<u8>) -> bool {
    &&& forall|i: int| 0 <= i < body.len() && body[i] != 0 ==> is_text_byte(#[trigger] body[i])
    &&& forall|i: int|
        0 <= i < body.len() && #[trigger] body[i] == 0 ==> 0 < i < body.len() - 1 && body[i + 1]
            != 0
}

/// A payload shown as text: empty, or NUL-terminated UTF-8 runs of printable characters.
pub open spec fn is_text_payload(b: Seq<u8>) -> bool {
    b.len() == 0 || (b.last() == 0 && valid_utf8(b.drop_last()) && is_text_body(b.drop_last()))
}

/// The separator shown between the NUL-separated runs of a text value.
pub open spec fn run_separator() -> Seq<char> {
    seq![',', ' ']
}

/// `s` with every occurrence of `from` replaced by `to`.
pub open spec fn replaced(s: Seq<char>, from: char, to: Seq<char>) -> Seq<char>
    decreases s.len(),
{
    if s.len() == 0 {
        Seq::empty()
    } else {
        (if s[0] == from {
            to
        } else {
            seq![s[0]]
        }) + replaced(s.drop_first(), from, to)
    }
}

/// Each NUL replaced by the run separator.
pub open spec fn join_runs(s: Seq<char>) -> Seq<char> {
    replaced(s, '\0', run_separator())
}

/// The big-endian 32-bit word at word index `k`.
pub open spec fn be_word(b: Seq<u8>, k: int) -> int {
    b[4 * k] * 0x100_0000 + b[4 * k + 1] * 0x1_0000 + b[4 * k + 2] * 0x100 + b[4 * k + 3]
}

/// The payload read as a sequence of big-endian 32-bit words.
pub open spec fn be_words(b: Seq<u8>) -> Seq<u32> {
    Seq::new((b.len() / 4) as nat, |k: int| be_word(b, k) as u32)
}

/// The display form of a property payload: text first, then a word list, then raw bytes.
pub open spec fn display_of(b: Seq<u8>) -> DisplayModel {
    if b.len() == 0 {
        DisplayModel::Text(Seq::empty())
    } else if is_text_payload(b) {
        DisplayModel::Text(join_runs(decode_utf8(b.drop_last())))
    } else if b.len() % 4 == 0 {
        DisplayModel::IntList(be_words(b))
    } else {
        DisplayModel::Raw(b)
    }
}

/// Relies on dtb::StructItem::value_str: a value is a string when its last byte is NUL and
/// the bytes before it are UTF-8; the string is their decoding.
#[verifier::external_body]
fn value_str(value: &[u8]) -> (r: Option<String>)
    ensures
        r is Some <==> (value@.len() > 0 && value@.last() == 0 && valid_utf8(value@.drop_last())),
        r is Some ==> r->0@ == decode_utf8(value@.drop_last()),
{
    match (dtb::StructItem::Property { name: "", value }).value_str() {
        Ok(s) => Some(s.to_owned()),
        Err(_) => None,
    }
}

/// Relies on str::replace with a character pattern: every occurrence of `from` replaced by `to`.
#[verifier::external_body]
fn replace_char(s: &str, from: char, to: &str) -> (r: String)
    ensures
        r@ == replaced(s@, from, to@),
{
    s.replace(from, to)
}

/// Whether the payload ends in NUL and the bytes before it satisfy `is_text_body`.
fn has_text_shape(value: &Vec<u8>) -> (r: bool)
    requires
        value@.len() > 0,
    ensures
        r == (value@.last() == 0 && is_text_body(value@.drop_last())),
{
    let n = value.len();
    if value[n - 1] != 0 {
        return false;
    }
    let ghost body = value@.drop_last();
    let m = n - 1;
    let mut i: usize = 0;
    while i < m
        invariant
            m == n - 1,
            n == value@.len(),
            body == value@.drop_last(),
            i <= m,
            forall|j: int| 0 <= j < i && body[j] != 0 ==> is_text_byte(#[trigger] body[j]),
            forall|j: int|
                0 <= j < i && #[trigger] body[j] == 0 ==> 0 < j < body.len() - 1 && body[j + 1]
                    != 0,
        decreases m - i,
    {
        let c = value[i];
        if c == 0 {
            if i == 0 || i + 1 >= m || value[i + 1] == 0 {
                assert(body[i as int] == 0);
                return false;
            }
        } else if c < 0x20 || c == 0x7f {
            assert(body[i as int] == c);
            return false;
        }
        i = i + 1;
    }
    true
}

/// Reads the payload as big-endian 32-bit words.
fn read_words(value: &Vec<u8>) -> (r: Vec<u32>)
    requires
        value@.len() % 4 == 0,
    ensures
        r@ == be_words(value@),
{
    let len = value.len();
    let n = len / 4;
    let mut out: Vec<u32> = Vec::new();
    let mut k: usize = 0;
    while k < n
        invariant
            len == value@.len(),
            n == value@.len() / 4,
            value@.len() % 4 == 0,
            k <= n,
            out@.len() == k,
            forall|j: int| 0 <= j < k ==> out@[j] == be_word(value@, j) as u32,
        decreases n - k,
    {
        assert(4 * k + 3 < value@.len()) by (nonlinear_arith)
            requires
                k < n,
                n == value@.len() / 4,
                value@.len() % 4 == 0,
        ;
        let b0 = value[4 * k] as u32;
        let b1 = value[4 * k + 1] as u32;
        let b2 = value[4 * k + 2] as u32;
        let b3 = value[4 * k + 3] as u32;
        let w = b0 * 0x100_0000 + b1 * 0x1_0000 + b2 * 0x100 + b3;
        out.push(w);
        k = k + 1;
    }
    assert(out@ =~= be_words(value@));
    out
}

/// Chooses how a property payload is displayed; never fails.
pub fn classify(value: &Vec<u8>) -> (r: DisplayValue)
    ensures
        r@ == display_of(value@),
{
    let n = value.len();
    if n == 0 {
        return DisplayValue::Text(String::new());
    }
    if has_text_shape(value) {
        match value_str(value.as_slice()) {
            Some(s) => {
                let shown = replace_char(s.as_str(), '\0', ", ");
                proof {
                    reveal_strlit(", ");
                    assert(", "@ =~= run_separator());
                }
                return DisplayValue::Text(shown);
            },
            None => {},
        }
    }
    if n % 4 == 0 {
        DisplayValue::IntList(read_words(value))
    } else {
        DisplayValue::Raw(value.clone())
    }
}

/// Classification is a function of the payload: two results for one payload agree.
pub proof fn lemma_classify_deterministic(b: Seq<u8>, r1: DisplayModel, r2: DisplayModel)
    requires
        r1 == display_of(b),
        r2 == display_of(b),
    ensures
        r1 == r2,
{
}

} // verus!
