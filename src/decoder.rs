use vstd::prelude::*;

use crate::error::DtbError;
use crate::tree::{
    empty_build, lemma_step_wf, step, BuildModel, StepModel, Token, TokenModel, Tree, TreeBuilder,
    TreeModel,
};

verus! {

/// The UTF-8 error carried by one of dtb's errors; only passed through.
#[verifier::external_type_specification]
#[verifier::external_body]
pub struct ExUtf8Error(core::str::Utf8Error);

/// dtb's error enum, with its variants visible so that verified code can map them.
#[verifier::external_type_specification]
pub struct ExDtbError(dtb::Error);

/// dtb's reader of a checked blob; opaque.
#[verifier::external_type_specification]
#[verifier::external_body]
pub struct ExReader<'a>(dtb::Reader<'a>);

/// dtb's walk over a structure block; opaque.
#[verifier::external_type_specification]
#[verifier::external_body]
pub struct ExStructItems<'a>(dtb::StructItems<'a>);

/// The size in bytes of a blob's fixed header.
pub const HEADER_SIZE: usize = 40;

/// The magic number that opens every blob, big-endian.
pub open spec fn has_magic(blob: Seq<u8>) -> bool {
    blob.len() >= 4 && blob[0] == 0xd0 && blob[1] == 0x0d && blob[2] == 0xfe && blob[3] == 0xed
}

/// The big-endian 32-bit header field at byte offset `i`.
pub open spec fn header_field(blob: Seq<u8>, i: int) -> int {
    blob[i] * 0x100_0000 + blob[i + 1] * 0x1_0000 + blob[i + 2] * 0x100 + blob[i + 3]
}

/// A header that cannot describe the blob: too short, no magic number, a total size other than
/// the blob's length, an unsupported version, or blocks that overrun each other or the blob.
pub open spec fn header_refused(blob: Seq<u8>) -> bool {
    let total = header_field(blob, 4);
    let struct_offset = header_field(blob, 8);
    let strings_offset = header_field(blob, 12);
    blob.len() < HEADER_SIZE || !has_magic(blob) || total != blob.len() || header_field(blob, 20)
        < header_field(blob, 24) || header_field(blob, 24) != 16 || struct_offset > total
        || strings_offset > total || header_field(blob, 16) > total || strings_offset
        < struct_offset + header_field(blob, 36) || total < strings_offset + header_field(blob, 32)
}

/// What dtb's walk over a structure block yields from a given point on: each item as a token,
/// up to and including the first error (the end of the block comes as an error).
pub uninterp spec fn items_walk(items: dtb::StructItems<'_>) -> Seq<Result<TokenModel, dtb::Error>>;

/// The walk that a reader's structure block yields from its beginning.
pub uninterp spec fn reader_walk(reader: dtb::Reader<'_>) -> Seq<Result<TokenModel, dtb::Error>>;

/// The walk of the structure block of a blob whose header is accepted.
pub uninterp spec fn blob_walk(blob: Seq<u8>) -> Seq<Result<TokenModel, dtb::Error>>;

/// Relies on dtb::Reader::read, which checks the header against the blob (Reader::get_header
/// and the checks of Reader::read and its block getters).
#[verifier::external_body]
fn open_reader<'a>(blob: &'a [u8]) -> (r: Result<dtb::Reader<'a>, dtb::Error>)
    ensures
        header_refused(blob@) ==> r is Err,
        r is Ok ==> reader_walk(r->Ok_0) == blob_walk(blob@),
{
    dtb::Reader::read(blob)
}

/// Relies on dtb::Reader::struct_items: a walk from the beginning of the structure block.
#[verifier::external_body]
fn struct_items<'a>(reader: &dtb::Reader<'a>) -> (r: dtb::StructItems<'a>)
    ensures
        items_walk(r) == reader_walk(*reader),
{
    reader.struct_items()
}

/// Relies on dtb::StructItems::next_item: it returns the next item of the walk, as a token, and
/// moves past it; an error leaves the rest of the walk as it was.
#[verifier::external_body]
fn next_struct_item<'a>(items: &mut dtb::StructItems<'a>) -> (r: Result<Token, dtb::Error>)
    ensures
        items_walk(*old(items)).len() > 0,
        match r {
            Ok(t) => items_walk(*old(items))[0] == Ok::<TokenModel, dtb::Error>(t@) && items_walk(
                *final(items),
            ) == items_walk(*old(items)).drop_first(),
            Err(e) => items_walk(*old(items))[0] == Err::<TokenModel, dtb::Error>(e) && items_walk(
                *final(items),
            ) == items_walk(*old(items)),
        },
{
    match items.next_item() {
        Ok(dtb::StructItem::BeginNode { name }) => Ok(Token::BeginNode { name: name.as_bytes().to_vec() }),
        Ok(dtb::StructItem::Property { name, value }) => Ok(
            Token::Property { name: name.as_bytes().to_vec(), value: value.to_vec() },
        ),
        Ok(dtb::StructItem::EndNode) => Ok(Token::EndNode),
        Err(e) => Err(e),
    }
}

/// What an error of the walk means: the end of the structure block, or a decoding error.
pub open spec fn error_outcome(e: dtb::Error) -> Result<TokenModel, DtbError> {
    match e {
        dtb::Error::NoMoreStructItems => Ok(TokenModel::End),
        dtb::Error::UnexpectedEndOfStruct => Err(DtbError::UnexpectedEof),
        dtb::Error::UnexpectedEndOfBlob => Err(DtbError::UnknownPropertyName),
        dtb::Error::BadPropertyName => Err(DtbError::UnknownPropertyName),
        _ => Err(DtbError::MalformedToken),
    }
}

/// What one step of the walk gives: a token, or a decoding error.
pub open spec fn item_outcome(i: Result<TokenModel, dtb::Error>) -> Result<TokenModel, DtbError> {
    match i {
        Ok(t) => Ok(t),
        Err(e) => error_outcome(e),
    }
}

/// The tree that a walk builds from a build state, or the first error of the walk or the build.
pub open spec fn build_walk(s: BuildModel, w: Seq<Result<TokenModel, dtb::Error>>) -> Result<
    TreeModel,
    DtbError,
>
    decreases w.len(),
{
    if w.len() == 0 {
        Err(DtbError::UnexpectedEof)
    } else {
        match item_outcome(w[0]) {
            Err(e) => Err(e),
            Ok(t) => match step(s, t) {
                StepModel::Open(s2) => build_walk(s2, w.drop_first()),
                StepModel::Closed(f) => Ok(TreeModel { nodes: f.nodes, props: f.props }),
                StepModel::Failed(e) => Err(e),
            },
        }
    }
}

/// What a failed step of the structure walk means: the end token, or a decoding error.
pub fn token_for_error(e: dtb::Error) -> (r: Result<Token, DtbError>)
    ensures
        match error_outcome(e) {
            Ok(t) => r is Ok && r->Ok_0@ == t,
            Err(x) => r == Err::<Token, DtbError>(x),
        },
{
    match e {
        dtb::Error::NoMoreStructItems => Ok(Token::End),
        dtb::Error::UnexpectedEndOfStruct => Err(DtbError::UnexpectedEof),
        dtb::Error::UnexpectedEndOfBlob => Err(DtbError::UnknownPropertyName),
        dtb::Error::BadPropertyName => Err(DtbError::UnknownPropertyName),
        _ => Err(DtbError::MalformedToken),
    }
}

/// A forward-only walk over the structure block of a blob.
pub struct Decoder<'a> {
    items: dtb::StructItems<'a>,
}

impl<'a> Decoder<'a> {
    /// What is left of the walk.
    pub closed spec fn rest(&self) -> Seq<Result<TokenModel, dtb::Error>> {
        items_walk(self.items)
    }

    /// Checks the header of a blob and starts a walk at the beginning of its structure block.
    pub fn read(blob: &'a [u8]) -> (r: Result<Decoder<'a>, DtbError>)
        ensures
            r is Ok ==> r->Ok_0.rest() == blob_walk(blob@),
            r is Err ==> r->Err_0 == DtbError::MalformedHeader,
            header_refused(blob@) ==> r is Err,
    {
        match open_reader(blob) {
            Ok(reader) => Ok(Decoder { items: struct_items(&reader) }),
            Err(_) => Err(DtbError::MalformedHeader),
        }
    }

    /// The next token of the structure block, `End` at its end, or the decoding error met.
    pub fn next_item(&mut self) -> (r: Result<Token, DtbError>)
        ensures
            old(self).rest().len() > 0,
            match item_outcome(old(self).rest()[0]) {
                Ok(t) => r is Ok && r->Ok_0@ == t,
                Err(e) => r == Err::<Token, DtbError>(e),
            },
            final(self).rest() == if old(self).rest()[0] is Ok {
                old(self).rest().drop_first()
            } else {
                old(self).rest()
            },
    {
        match next_struct_item(&mut self.items) {
            Ok(t) => Ok(t),
            Err(e) => token_for_error(e),
        }
    }
}

/// Builds the tree from the rest of a decoder's walk.
pub fn build(decoder: &mut Decoder) -> (r: Result<Tree, DtbError>)
    ensures
        match build_walk(empty_build(), old(decoder).rest()) {
            Ok(m) => r is Ok && r->Ok_0@ == m && r->Ok_0.wf(),
            Err(e) => r == Err::<Tree, DtbError>(e),
        },
{
    let ghost goal = build_walk(empty_build(), decoder.rest());
    let mut builder = TreeBuilder::new();
    loop
        invariant
            builder.wf(),
            goal == build_walk(builder@, decoder.rest()),
            goal == build_walk(empty_build(), old(decoder).rest()),
        decreases decoder.rest().len(),
    {
        let ghost w = decoder.rest();
        let tok = match decoder.next_item() {
            Ok(t) => t,
            Err(e) => {
                return Err(e);
            },
        };
        let ghost before = builder@;
        proof {
            lemma_step_wf(before, tok@);
        }
        match builder.feed(tok) {
            Ok(false) => {
                assert(w[0] is Ok);
            },
            Ok(true) => {
                return Ok(builder.finish());
            },
            Err(e) => {
                return Err(e);
            },
        }
    }
}

/// Reads a blob and builds its tree.
pub fn load(blob: &[u8]) -> (r: Result<Tree, DtbError>)
    ensures
        header_refused(blob@) ==> r == Err::<Tree, DtbError>(DtbError::MalformedHeader),
        r == Err::<Tree, DtbError>(DtbError::MalformedHeader) || match build_walk(
            empty_build(),
            blob_walk(blob@),
        ) {
            Ok(m) => r is Ok && r->Ok_0@ == m && r->Ok_0.wf(),
            Err(e) => r == Err::<Tree, DtbError>(e),
        },
{
    let mut decoder = Decoder::read(blob)?;
    build(&mut decoder)
}

} // verus!
