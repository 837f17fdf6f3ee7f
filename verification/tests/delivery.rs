use bytes::{Buf, BufMut, Bytes};
use commonware_codec::{Decode, Encode, EncodeSize, Error, Read, Write};
use lifecycle::buffer::same_bytes;
use lifecycle::decoded::DecodedBlocks;
use lifecycle::delivery::{
    decode_cached_delivery, decode_delivery, reuses_cached, Block, PendingVerification,
};
use lifecycle::types::Height;
use std::sync::atomic::{AtomicUsize, Ordering};
use std::sync::Arc;

#[derive(Clone, Debug, PartialEq, Eq)]
struct TestBlock([u8; 8]);

impl Write for TestBlock {
    fn write(&self, buf: &mut impl BufMut) {
        buf.put_slice(&self.0);
    }
}

impl EncodeSize for TestBlock {
    fn encode_size(&self) -> usize {
        self.0.len()
    }
}

impl Read for TestBlock {
    type Cfg = Arc<AtomicUsize>;

    fn read_cfg(buf: &mut impl Buf, reads: &Self::Cfg) -> Result<Self, Error> {
        reads.fetch_add(1, Ordering::Relaxed);
        let bytes = <[u8; 8]>::read_cfg(buf, &())?;
        if bytes[0] != 42 {
            return Err(Error::Invalid("test block", "invalid tag"));
        }
        Ok(Self(bytes))
    }
}

impl Block for TestBlock {
    type Cfg = Arc<AtomicUsize>;

    fn can_reuse_cached_encoding(&self, _cfg: &Arc<AtomicUsize>) -> bool {
        self.0[0] == 42
    }

    fn encode_size(&self) -> usize {
        EncodeSize::encode_size(self)
    }

    fn encode(&self) -> Bytes {
        Encode::encode(self)
    }

    fn decode_cfg(value: Bytes, cfg: &Arc<AtomicUsize>) -> Result<Self, Error> {
        <Self as Decode>::decode_cfg(value, cfg)
    }
}

#[derive(Clone, Debug)]
struct DefaultBlock(TestBlock);

impl Write for DefaultBlock {
    fn write(&self, buf: &mut impl BufMut) {
        self.0.write(buf);
    }
}

impl EncodeSize for DefaultBlock {
    fn encode_size(&self) -> usize {
        EncodeSize::encode_size(&self.0)
    }
}

impl Read for DefaultBlock {
    type Cfg = u8;

    fn read_cfg(buf: &mut impl Buf, limit: &Self::Cfg) -> Result<Self, Error> {
        let bytes = <[u8; 8]>::read_cfg(buf, &())?;
        if bytes[0] > *limit {
            return Err(Error::Invalid("default block", "configuration limit"));
        }
        Ok(Self(TestBlock(bytes)))
    }
}

impl Block for DefaultBlock {
    type Cfg = u8;

    fn encode_size(&self) -> usize {
        EncodeSize::encode_size(self)
    }

    fn encode(&self) -> Bytes {
        Encode::encode(self)
    }

    fn decode_cfg(value: Bytes, cfg: &u8) -> Result<Self, Error> {
        <Self as Decode>::decode_cfg(value, cfg)
    }
}

#[test]
fn cached_delivery_default_standard_preserves_config_rejection() {
    // A block type that does not say otherwise must not infer decoder validity from
    // matching bytes.
    let block = Arc::new(DefaultBlock(TestBlock([42; 8])));
    let cfg = 0;
    assert!(<DefaultBlock as Decode>::decode_cfg(Encode::encode(&*block), &cfg).is_err());
    assert!(decode_cached_delivery(Encode::encode(&*block), &cfg, Some(block)).is_err());
}

#[test]
fn cached_delivery_exact_bytes_reuse_without_decode() {
    let reads = Arc::new(AtomicUsize::new(0));
    let block = Arc::new(TestBlock([42, 1, 2, 3, 4, 5, 6, 7]));
    let encoded = Encode::encode(&*block);
    let decoded = decode_cached_delivery(encoded, &reads, Some(Arc::clone(&block))).unwrap();
    assert_eq!(&decoded, block.as_ref());
    assert_eq!(reads.load(Ordering::Relaxed), 0);
    assert_eq!(Arc::strong_count(&block), 1);
}

#[test]
fn cached_delivery_misses_preserve_decoder_results() {
    let block = Arc::new(TestBlock([42, 1, 2, 3, 4, 5, 6, 7]));
    let mut inputs = vec![Encode::encode(&*block)];
    for index in 0..8 {
        let mut bytes = block.0;
        bytes[index] ^= 1;
        inputs.push(Bytes::copy_from_slice(&bytes));
    }
    for length in 0..8 {
        inputs.push(Bytes::copy_from_slice(&block.0[..length]));
    }
    let mut trailing = block.0.to_vec();
    trailing.push(0);
    inputs.push(trailing.into());
    for value in inputs {
        let reads = Arc::new(AtomicUsize::new(0));
        let expected = <TestBlock as Decode>::decode_cfg(value.clone(), &reads)
            .map_err(|error| error.to_string());
        reads.store(0, Ordering::Relaxed);
        let actual = decode_cached_delivery(value.clone(), &reads, None::<Arc<TestBlock>>)
            .map_err(|error| error.to_string());
        assert_eq!(actual, expected);
        assert_eq!(reads.load(Ordering::Relaxed), 1);
        reads.store(0, Ordering::Relaxed);
        let actual = decode_cached_delivery(value.clone(), &reads, Some(Arc::clone(&block)))
            .map_err(|error| error.to_string());
        assert_eq!(actual, expected);
        assert_eq!(
            reads.load(Ordering::Relaxed),
            usize::from(value.as_ref() != block.0)
        );
    }
}

#[test]
fn cached_delivery_requires_full_commitment_and_obeys_eviction() {
    let reads = Arc::new(AtomicUsize::new(0));
    let block = Arc::new(TestBlock([42, 1, 2, 3, 4, 5, 6, 7]));
    let encoded = Encode::encode(&*block);
    let mut cache = DecodedBlocks::new(1, 8);
    cache.insert((7, 1), 7, Arc::clone(&block), 8, Height::new(1), false);
    // An aliased digest with a different full commitment is a cache miss.
    decode_cached_delivery(encoded.clone(), &reads, cache.by_commitment(&(7, 2))).unwrap();
    assert_eq!(reads.load(Ordering::Relaxed), 1);
    decode_cached_delivery(encoded.clone(), &reads, cache.by_commitment(&(7, 1))).unwrap();
    assert_eq!(reads.load(Ordering::Relaxed), 1);
    cache.insert((8, 1), 8, Arc::clone(&block), 8, Height::new(2), false);
    decode_cached_delivery(encoded.clone(), &reads, cache.by_commitment(&(7, 1))).unwrap();
    assert_eq!(reads.load(Ordering::Relaxed), 2);
    cache.prune(Some(Height::new(3)));
    decode_cached_delivery(encoded.clone(), &reads, cache.by_commitment(&(8, 1))).unwrap();
    assert_eq!(reads.load(Ordering::Relaxed), 3);
}

#[test]
fn reuse_is_told_before_the_block_is_taken() {
    let reads = Arc::new(AtomicUsize::new(0));
    let block = Arc::new(TestBlock([42, 1, 2, 3, 4, 5, 6, 7]));
    let encoded = Encode::encode(&*block);
    assert!(reuses_cached(&encoded, &reads, &Some(Arc::clone(&block))));
    assert!(!reuses_cached(&encoded, &reads, &None::<Arc<TestBlock>>));
    let foreign = Arc::new(TestBlock([41, 1, 2, 3, 4, 5, 6, 7]));
    assert!(!reuses_cached(&Encode::encode(&*foreign), &reads, &Some(foreign)));
    assert_eq!(reads.load(Ordering::Relaxed), 0);
}

#[test]
fn shared_block_is_cloned_and_sole_block_is_moved() {
    let reads = Arc::new(AtomicUsize::new(0));
    let block = Arc::new(TestBlock([42, 9, 9, 9, 9, 9, 9, 9]));
    let shared = Arc::clone(&block);
    let encoded = Encode::encode(&*block);
    let first = decode_cached_delivery(encoded.clone(), &reads, Some(shared)).unwrap();
    assert_eq!(first, *block);
    let second = decode_cached_delivery(encoded, &reads, Some(block)).unwrap();
    assert_eq!(second, TestBlock([42, 9, 9, 9, 9, 9, 9, 9]));
}

#[test]
fn buffers_are_compared_byte_by_byte() {
    assert!(same_bytes(&Bytes::from("abc"), &Bytes::from(vec![97, 98, 99])));
    assert!(!same_bytes(&Bytes::from("abc"), &Bytes::from("abd")));
    assert!(!same_bytes(&Bytes::from("abc"), &Bytes::from("ab")));
    assert!(same_bytes(&Bytes::new(), &Bytes::from("")));
}

type Pending = PendingVerification<u64, &'static str, &'static str, u8, u16, bool>;

#[test]
fn pending_verification_carries_its_scope_and_response() {
    let notarized: Pending = PendingVerification::Notarized {
        scoped: 3,
        notarization: "notarization",
        block: 1,
        response: true,
    };
    let finalized: Pending = PendingVerification::Finalized {
        scoped: 4,
        finalization: "finalization",
        block: 2,
        response: false,
    };
    assert_eq!(*notarized.scoped(), 3);
    assert_eq!(*finalized.scoped(), 4);
    assert!(notarized.response_closed(|response| *response));
    assert!(!finalized.response_closed(|response| *response));
}

#[test]
fn default_block_is_not_reused_where_the_decoder_accepts_it() {
    let block = Arc::new(DefaultBlock(TestBlock([42; 8])));
    assert!(!block.can_reuse_cached_encoding(&42));
    let encoded = Encode::encode(&*block);
    assert!(!reuses_cached(&encoded, &42, &Some(Arc::clone(&block))));
    assert!(decode_cached_delivery(encoded, &42, Some(block)).is_ok());
}

#[test]
fn reused_block_is_delivered_in_place_of_the_bytes() {
    let reads = Arc::new(AtomicUsize::new(0));
    let block = Arc::new(TestBlock([42, 1, 2, 3, 4, 5, 6, 7]));
    let other = Bytes::from(vec![42u8; 8]);
    let delivered = decode_delivery(other.clone(), &reads, Some(Arc::clone(&block)), true);
    assert_eq!(&delivered.unwrap(), block.as_ref());
    assert_eq!(reads.load(Ordering::Relaxed), 0);
    let delivered = decode_delivery(other.clone(), &reads, Some(block), false);
    assert_eq!(delivered.unwrap(), TestBlock([42; 8]));
    let delivered = decode_delivery::<TestBlock>(other, &reads, None, true);
    assert_eq!(delivered.unwrap(), TestBlock([42; 8]));
    assert_eq!(reads.load(Ordering::Relaxed), 2);
}
