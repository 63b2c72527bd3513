//! The content blocks of records.

use crate::octets::{copied, equal, octets};
use crate::record::error::{BlockError, BlockFault};
use crate::record::fields::{self, fields_of, rendered, Body, Field};
use crate::record::payload::octets_in;
use crate::value::media_type::{is_media, Media};
use crate::value::MediaType;
use std::borrow::Cow;
use vstd::prelude::*;

verus! {

/// The body of a record type the standard recommends be written as `application/warc-fields`.
///
/// A block declared as `application/warc-fields` is parsed into fields. Other blocks remain raw.
#[derive(Clone, Debug)]
pub enum FieldsBlock<F> {
    /// A block declared and read as `application/warc-fields`.
    Fields(Body<F>),
    /// A block of any other declared type, kept as read.
    Raw(Vec<u8>),
}

/// The octets of a block.
pub open spec fn block_octets<F: Field>(block: FieldsBlock<F>) -> Seq<u8> {
    match block {
        FieldsBlock::Fields(body) => octets(rendered::<F>(body@)),
        FieldsBlock::Raw(bytes) => bytes@,
    }
}

/// Whether two blocks hold the same: the same fields, or the same octets.
pub open spec fn same_block<F: Field>(a: FieldsBlock<F>, b: FieldsBlock<F>) -> bool {
    match (a, b) {
        (FieldsBlock::Fields(a), FieldsBlock::Fields(b)) => a@.fields == b@.fields,
        (FieldsBlock::Raw(a), FieldsBlock::Raw(b)) => a@ == b@,
        _ => false,
    }
}

/// Whether a media type declares a block as `application/warc-fields`.
pub open spec fn declares_fields(content_type: Option<Media>) -> bool {
    content_type matches Some(media) && is_media(media, "application"@, "warc-fields"@)
}

/// What keeps a block from being what its media type declares. A block that is declared truncated
/// is not a complete entity, so nothing does.
pub open spec fn block_fault<F: Field>(
    content_type: Option<Media>,
    truncated: bool,
    bytes: Seq<u8>,
) -> Option<BlockFault> {
    if declares_fields(content_type) && !truncated {
        match fields_of::<F>(bytes) {
            Ok(_) => None,
            Err(fault) => Some(BlockFault::Fields(fault)),
        }
    } else {
        None
    }
}

impl<F: Field> FieldsBlock<F> {
    /// Whether this is how octets are read under a media type: as fields where they are declared
    /// as them and are some, and as the octets otherwise.
    pub open spec fn is_read_from(self, content_type: Option<Media>, bytes: Seq<u8>) -> bool {
        if declares_fields(content_type) && fields_of::<F>(bytes) is Ok {
            self matches FieldsBlock::Fields(body) && fields_of::<F>(bytes) == Ok::<
                Seq<(F::V, Seq<char>)>,
                fields::Fault,
            >(body@.fields) && body@.source is Some && octets(body@.source->0) == bytes
        } else {
            self matches FieldsBlock::Raw(kept) && kept@ == bytes
        }
    }

    /// Consume the block and return its rendered bytes.
    ///
    /// Unmodified parsed fields reproduce their source bytes.
    pub fn into_bytes(self) -> (r: Vec<u8>)
        ensures
            r@ == block_octets(self),
    {
        match self {
            FieldsBlock::Fields(body) => {
                let written = body.to_string();
                copied(written.as_str().as_bytes())
            },
            FieldsBlock::Raw(bytes) => bytes,
        }
    }

    /// Return the block bytes, borrowing raw blocks and rendering parsed fields.
    ///
    /// Use [`into_bytes`](Self::into_bytes) to take ownership.
    pub fn as_bytes(&self) -> (r: Cow<'_, [u8]>)
        ensures
            octets_in(r) == block_octets(*self),
    {
        match self {
            FieldsBlock::Fields(body) => {
                let written = body.to_string();
                Cow::Owned(copied(written.as_str().as_bytes()))
            },
            FieldsBlock::Raw(bytes) => Cow::Borrowed(bytes.as_slice()),
        }
    }

    /// The number of octets the block renders as.
    pub fn rendered_len(&self) -> (r: usize)
        ensures
            r == block_octets(*self).len(),
    {
        match self {
            FieldsBlock::Fields(body) => body.rendered_len(),
            FieldsBlock::Raw(bytes) => bytes.len(),
        }
    }

    /// Read a record's block as its fields when its `Content-Type` declares them, and keep it as
    /// the bytes it arrived as otherwise.
    ///
    /// A block the record declares truncated is not a complete entity, so one that does not parse
    /// is kept as the bytes it arrived as rather than refused.
    pub fn read(content_type: Option<&MediaType>, truncated: bool, body: Vec<u8>) -> (r: Result<
        Self,
        BlockError,
    >)
        ensures
            ({
                let media = match content_type {
                    Some(media) => Some(media@),
                    None => None,
                };
                match r {
                    Ok(block) => block_fault::<F>(media, truncated, body@) is None
                        && block.is_read_from(media, body@),
                    Err(error) => block_fault::<F>(media, truncated, body@) == Some(error@),
                }
            }),
    {
        let declared = match content_type {
            Some(media) => media.is("application", "warc-fields"),
            None => false,
        };
        if !declared {
            return Ok(FieldsBlock::Raw(body));
        }
        match Body::parse(body.as_slice()) {
            Ok(found) => Ok(FieldsBlock::Fields(found)),
            Err(error) => if truncated {
                Ok(FieldsBlock::Raw(body))
            } else {
                Err(BlockError::Fields(error))
            },
        }
    }

    /// Whether two blocks hold the same: the same fields, or the same octets.
    pub fn is_same(&self, other: &Self) -> (r: bool)
        ensures
            r == same_block(*self, *other),
    {
        match (self, other) {
            (FieldsBlock::Fields(a), FieldsBlock::Fields(b)) => a.is_same(b),
            (FieldsBlock::Raw(a), FieldsBlock::Raw(b)) => equal(a.as_slice(), b.as_slice()),
            _ => false,
        }
    }
}

impl<F: Field> PartialEq for FieldsBlock<F> {
    fn eq(&self, other: &Self) -> (r: bool) {
        self.is_same(other)
    }
}

impl<F: Field> Eq for FieldsBlock<F> {

}

impl<F: Field> vstd::std_specs::cmp::PartialEqSpecImpl for FieldsBlock<F> {
    open spec fn obeys_eq_spec() -> bool {
        true
    }

    open spec fn eq_spec(&self, other: &Self) -> bool {
        same_block(*self, *other)
    }
}

/// A block is written as the octets that it was read from.
pub proof fn lemma_block_is_written_as_read<F: Field>(
    block: FieldsBlock<F>,
    content_type: Option<Media>,
    bytes: Seq<u8>,
)
    requires
        block.is_read_from(content_type, bytes),
    ensures
        block_octets(block) == bytes,
{
}

} // verus!
