//! Reuse of decoded blocks for delivered bytes, and deliveries that await the
//! verification of their certificate.

use crate::buffer::{contents, same_bytes};
use crate::sharing::unwrap_or_clone;
use bytes::Bytes;
use commonware_codec::Error;
use std::sync::Arc;
use vstd::prelude::*;

verus! {

/// Trusted: the reason for which a decoder of the `commonware_codec` crate rejects
/// its input. It is carried along and never read.
#[verifier::external_type_specification]
#[verifier::external_body]
pub struct ExError(commonware_codec::Error);

/// A block with a canonical encoding, which a configuration may still reject.
///
/// The methods are those of an application's block type; what is proved of a
/// delivery holds for implementations that keep to their clauses.
pub trait Block: Sized + Clone {
    /// What the decoder is configured by.
    type Cfg;

    /// The canonical encoding.
    open spec fn encoding(&self) -> Seq<u8> {
        arbitrary()
    }

    /// The block that the decoder reads from exactly these bytes, if it accepts them.
    open spec fn decoding(bytes: Seq<u8>, cfg: &Self::Cfg) -> Option<Self> {
        arbitrary()
    }

    /// Returns whether a cached block may stand for its encoding under the
    /// configuration. Unless a block type says so itself, it may not: a block that was
    /// never decoded tells nothing of what the decoder accepts.
    fn can_reuse_cached_encoding(&self, cfg: &Self::Cfg) -> (reusable: bool)
        default_ensures
            !reusable,
    {
        let _ = cfg;
        false
    }

    /// Returns the size of the encoding.
    fn encode_size(&self) -> (size: usize)
        ensures
            size == self.encoding().len(),
    ;

    /// Returns the encoding.
    fn encode(&self) -> (encoded: Bytes)
        ensures
            contents(encoded) == self.encoding(),
    ;

    /// Reads a block from all of the bytes.
    fn decode_cfg(value: Bytes, cfg: &Self::Cfg) -> (decoded: Result<Self, Error>)
        ensures
            match decoded {
                Ok(block) => Self::decoding(contents(value), cfg) == Some(block),
                Err(_) => Self::decoding(contents(value), cfg) is None,
            },
    ;
}

/// The cached block, if there is one, answers so when it is asked whether it may stand
/// for its encoding.
pub open spec fn answers<B: Block>(cfg: &B::Cfg, cached: Option<Arc<B>>, reusable: bool) -> bool {
    cached matches Some(block) ==> call_ensures(
        B::can_reuse_cached_encoding,
        (&*block, cfg),
        reusable,
    )
}

/// The cached block, with its answer, stands for the received bytes.
pub open spec fn reuses<B: Block>(bytes: Seq<u8>, cached: Option<Arc<B>>, reusable: bool) -> bool {
    cached matches Some(block) && reusable && block.encoding() == bytes
}

/// The block that the received bytes are delivered as, if any.
pub open spec fn delivered<B: Block>(
    bytes: Seq<u8>,
    cfg: &B::Cfg,
    cached: Option<Arc<B>>,
    reusable: bool,
) -> Option<B> {
    if reuses(bytes, cached, reusable) {
        Some(*cached->0)
    } else {
        B::decoding(bytes, cfg)
    }
}

/// Returns whether the cached block stands for the received bytes.
pub fn reuses_cached<B: Block>(value: &Bytes, cfg: &B::Cfg, cached: &Option<Arc<B>>) -> (reused: bool)
    ensures
        exists|reusable: bool| #[trigger]
            answers(cfg, *cached, reusable) && reused == reuses(
                contents(*value),
                *cached,
                reusable,
            ),
{
    match cached {
        Some(block) => {
            let reusable = block.can_reuse_cached_encoding(cfg);
            assert(answers(cfg, *cached, reusable));
            if reusable && block.encode_size() == value.len() {
                let encoded = block.encode();
                same_bytes(&encoded, value)
            } else {
                false
            }
        },
        None => {
            assert(answers(cfg, *cached, false));
            false
        },
    }
}

/// Delivers the cached block where it is `reused`, and what the decoder reads of the
/// bytes otherwise.
pub fn decode_delivery<B: Block>(
    value: Bytes,
    cfg: &B::Cfg,
    cached: Option<Arc<B>>,
    reused: bool,
) -> (block: Result<B, Error>)
    ensures
        reused && cached is Some ==> {
            &&& block matches Ok(block)
            &&& cloned::<B>(*cached->0, block)
        },
        !(reused && cached is Some) ==> call_ensures(B::decode_cfg, (value, cfg), block),
{
    if reused {
        if let Some(block) = cached {
            return Ok(unwrap_or_clone(block));
        }
    }
    B::decode_cfg(value, cfg)
}

/// Reuses a structurally validated block only when its complete canonical wire
/// encoding matches the received bytes. The caller must select the cached block by
/// full commitment under the same codec configuration and still verify the
/// certificate. Every other response follows the normal decoder, including
/// malformed, alternate, and trailing-byte encodings.
pub fn decode_cached_delivery<B: Block>(value: Bytes, cfg: &B::Cfg, cached: Option<Arc<B>>) -> (block:
    Result<B, Error>)
    ensures
        exists|reusable: bool|
            {
                &&& #[trigger] answers(cfg, cached, reusable)
                &&& match block {
                    Ok(block) => delivered(contents(value), cfg, cached, reusable) matches Some(
                        expected,
                    ) && cloned::<B>(expected, block),
                    Err(_) => delivered(contents(value), cfg, cached, reusable) is None,
                }
                &&& !reuses(contents(value), cached, reusable) ==> call_ensures(
                    B::decode_cfg,
                    (value, cfg),
                    block,
                )
            },
{
    let reused = reuses_cached(&value, cfg, &cached);
    decode_delivery(value, cfg, cached, reused)
}

/// Reuse never changes what is delivered, as long as a block only answers that it may
/// stand for its encoding where the decoder would read it from that.
pub proof fn law_reuse_agrees_with_the_decoder<B: Block>(
    bytes: Seq<u8>,
    cfg: &B::Cfg,
    cached: Option<Arc<B>>,
    reusable: bool,
)
    requires
        cached matches Some(block) ==> reusable ==> B::decoding(block.encoding(), cfg) == Some(
            *block,
        ),
    ensures
        delivered(bytes, cfg, cached, reusable) == B::decoding(bytes, cfg),
{
}

/// A block that may not stand for its encoding, or whose encoding differs from the
/// received bytes in any byte or in length, is never delivered in place of what the
/// decoder reads, and neither is one that is not cached.
pub proof fn law_misses_follow_the_decoder<B: Block>(
    bytes: Seq<u8>,
    cfg: &B::Cfg,
    block: Arc<B>,
    reusable: bool,
)
    requires
        !reusable || block.encoding() != bytes,
    ensures
        delivered(bytes, cfg, Some(block), reusable) == B::decoding(bytes, cfg),
        delivered(bytes, cfg, None::<Arc<B>>, reusable) == B::decoding(bytes, cfg),
{
}

/// A cached block that may stand for its encoding, and whose encoding is exactly the
/// received bytes, is what is delivered, whatever the decoder would read. What a block
/// answers is what its own method returns.
pub proof fn law_exact_bytes_deliver_the_cached_block<B: Block>(
    bytes: Seq<u8>,
    cfg: &B::Cfg,
    block: Arc<B>,
    reusable: bool,
)
    ensures
        reusable && block.encoding() == bytes ==> reuses(bytes, Some(block), reusable) && delivered(
            bytes,
            cfg,
            Some(block),
            reusable,
        ) == Some(*block),
        !reusable || block.encoding() != bytes ==> !reuses(bytes, Some(block), reusable),
        !reuses(bytes, None::<Arc<B>>, reusable),
        answers(cfg, Some(block), reusable) <==> call_ensures(
            B::can_reuse_cached_encoding,
            (&*block, cfg),
            reusable,
        ),
{
}

/// Notarized or finalized, a delivery keeps the scope that it was admitted under and the
/// place where its verdict is awaited.
pub proof fn law_pending_delivery_keeps_its_scope<S, N, F, B, A, R>(
    scoped: S,
    notarization: N,
    finalization: F,
    block: B,
    application_block: A,
    response: R,
)
    ensures
        ({
            let notarized = PendingVerification::<S, N, F, B, A, R>::Notarized {
                scoped,
                notarization,
                block,
                response,
            };
            let finalized = PendingVerification::<S, N, F, B, A, R>::Finalized {
                scoped,
                finalization,
                block: application_block,
                response,
            };
            &&& notarized.spec_scoped() == scoped
            &&& notarized.spec_response() == response
            &&& finalized.spec_scoped() == scoped
            &&& finalized.spec_response() == response
        }),
{
}

/// A parsed but unverified delivery that awaits the verification of its certificate.
///
/// Each item carries the scope it was admitted under, so that verification does not
/// depend on the provider still serving that epoch.
#[allow(inconsistent_fields)]
pub enum PendingVerification<S, N, F, B, A, R> {
    Notarized { scoped: S, notarization: N, block: B, response: R },
    Finalized { scoped: S, finalization: F, block: A, response: R },
}

impl<S, N, F, B, A, R> PendingVerification<S, N, F, B, A, R> {
    /// The scope the delivery was admitted under.
    pub open spec fn spec_scoped(self) -> S {
        match self {
            PendingVerification::Notarized { scoped, .. } => scoped,
            PendingVerification::Finalized { scoped, .. } => scoped,
        }
    }

    /// Where the verdict is awaited.
    pub open spec fn spec_response(self) -> R {
        match self {
            PendingVerification::Notarized { response, .. } => response,
            PendingVerification::Finalized { response, .. } => response,
        }
    }

    /// Returns the scope the delivery was admitted under.
    pub fn scoped(&self) -> (scoped: &S)
        ensures
            *scoped == self.spec_scoped(),
    {
        match self {
            PendingVerification::Notarized { scoped, .. } => scoped,
            PendingVerification::Finalized { scoped, .. } => scoped,
        }
    }

    /// Returns whether nobody awaits the verdict any more, which `is_closed` tells
    /// of the channel that it would be sent on.
    pub fn response_closed<O: Fn(&R) -> bool>(&self, is_closed: O) -> (closed: bool)
        requires
            call_requires(is_closed, (&self.spec_response(),)),
        ensures
            call_ensures(is_closed, (&self.spec_response(),), closed),
    {
        match self {
            PendingVerification::Notarized { response, .. } => is_closed(response),
            PendingVerification::Finalized { response, .. } => is_closed(response),
        }
    }
}

} // verus!
