use surch_index::p2_integrity::{
    p2_digest_count, p2_digest_page, p2_digest_region, p2_read_plan, p2_verify_range, P2IntegrityBuilder,
    P2RegionKind, P2RuntimeMetrics, P2_INTEGRITY_MAX_BYTES,
};
use surch_index::postings::PostingsReadError;

fn region_bytes(len: usize) -> Vec<u8> {
    (0..len).map(|i| (i * 7 % 251) as u8).collect()
}

fn fresh_metrics() -> P2RuntimeMetrics {
    P2RuntimeMetrics { verified_bytes: 0, hash_failures: 0, fallbacks: 0 }
}

#[test]
fn digest_count_rounds_pages_up() {
    assert_eq!(p2_digest_count(0), Some(0));
    assert_eq!(p2_digest_count(1), Some(1));
    assert_eq!(p2_digest_count(4096), Some(1));
    assert_eq!(p2_digest_count(4097), Some(2));
}

#[test]
fn page_digest_hashes_the_domain_region_and_page() {
    let page = b"abc";
    let mut message = b"surch.p2.meta.v1".to_vec();
    message.push(2);
    message.extend_from_slice(&7u32.to_le_bytes());
    message.extend_from_slice(&100u64.to_le_bytes());
    message.extend_from_slice(&3u64.to_le_bytes());
    message.extend_from_slice(&0u64.to_le_bytes());
    message.extend_from_slice(&3u64.to_le_bytes());
    message.extend_from_slice(page);
    let expected = *blake3::hash(&message).as_bytes();
    assert_eq!(p2_digest_page(P2RegionKind::Directory, 7, 100, 3, 0, page), expected);
    assert_ne!(p2_digest_page(P2RegionKind::Entries, 7, 100, 3, 0, page), expected);
}

#[test]
fn verified_read_returns_the_requested_range() {
    let data = region_bytes(10_000);
    let digested = p2_digest_region(P2RegionKind::Entries, 3, 1_000, &data, 0).expect("digests");
    assert_eq!(digested.digests.len(), 3);
    assert_eq!(digested.region.digest_count, 3);
    let region = digested.region;

    let mut builder = P2IntegrityBuilder::new();
    let directory = p2_digest_region(P2RegionKind::Directory, 3, 0, &[], 3).expect("empty directory");
    assert!(builder.can_publish(0, data.len()));
    let published = builder.publish(directory, digested).expect("published");
    assert_eq!(published.entries, region);
    let table = builder.finish();
    assert_eq!(table.protected_fields, 1);
    assert_eq!(table.bytes(), 3 * 32 + 64);

    let plan = p2_read_plan(&region, 1_000 + 4_000, 200).expect("plan");
    assert_eq!(plan.first_page, 0);
    assert_eq!(plan.last_page, 1);
    assert_eq!(plan.read_base, 1_000);
    assert_eq!(plan.read_len, 8192);
    let bytes = &data[plan.page_start as usize..plan.page_start as usize + plan.read_len as usize];

    let mut metrics = fresh_metrics();
    let out = p2_verify_range(&region, &table, &mut metrics, &plan, bytes, 200).expect("verified");
    assert_eq!(out, data[4_000..4_200].to_vec());
    assert_eq!(metrics.verified_bytes, 8192);
    assert_eq!(metrics.hash_failures, 0);
}

#[test]
fn verified_read_rejects_a_tampered_page() {
    let data = region_bytes(5_000);
    let digested = p2_digest_region(P2RegionKind::Entries, 0, 0, &data, 0).expect("digests");
    let region = digested.region;
    let mut builder = P2IntegrityBuilder::new();
    let directory = p2_digest_region(P2RegionKind::Directory, 0, 0, &[], 2).expect("empty directory");
    builder.publish(directory, digested).expect("published");
    let table = builder.finish();

    let plan = p2_read_plan(&region, 4_100, 10).expect("plan");
    let mut bytes = data[plan.page_start as usize..(plan.page_start + plan.read_len as u64) as usize].to_vec();
    bytes[0] ^= 0xff;
    let mut metrics = fresh_metrics();
    let err = p2_verify_range(&region, &table, &mut metrics, &plan, &bytes, 10).expect_err("tampered");
    assert_eq!(err, PostingsReadError::Corrupt);
    assert_eq!(metrics.hash_failures, 1);
    assert_eq!(metrics.verified_bytes, 0);

    let short = &data[plan.page_start as usize..plan.page_start as usize + 100];
    let err = p2_verify_range(&region, &table, &mut metrics, &plan, short, 10).expect_err("short read");
    assert_eq!(err, PostingsReadError::Corrupt);
    assert_eq!(metrics.hash_failures, 1);
}

#[test]
fn read_plan_rejects_ranges_outside_the_region() {
    let data = region_bytes(100);
    let region = p2_digest_region(P2RegionKind::Entries, 0, 50, &data, 0).expect("digests").region;
    assert_eq!(p2_read_plan(&region, 50, 0), Err(PostingsReadError::Corrupt));
    assert_eq!(p2_read_plan(&region, 49, 2), Err(PostingsReadError::Corrupt));
    assert_eq!(p2_read_plan(&region, 140, 11), Err(PostingsReadError::Corrupt));
    assert_eq!(p2_read_plan(&region, u64::MAX, 2), Err(PostingsReadError::Corrupt));
    let plan = p2_read_plan(&region, 140, 10).expect("last bytes");
    assert_eq!(plan.read_len, 100);
    assert_eq!(plan.start, 90);
}

#[test]
fn builder_refuses_fields_past_the_ceiling() {
    let mut builder = P2IntegrityBuilder::new();
    assert!(builder.can_publish(P2_INTEGRITY_MAX_BYTES as usize, P2_INTEGRITY_MAX_BYTES as usize));
    // The most pages whose digests, with the field's two descriptors, fit the ceiling.
    let pages_at_ceiling = (P2_INTEGRITY_MAX_BYTES as usize - 64) / 32;
    assert!(builder.can_publish(pages_at_ceiling * 4096, 0));
    assert!(!builder.can_publish((pages_at_ceiling + 1) * 4096, 0));
    assert!(!builder.can_publish(usize::MAX / 2, 0));
    assert!(builder.can_publish(4096, 4096));
    builder.record_fallback();
    builder.record_layout(10, 2);
    let table = builder.finish();
    assert_eq!(table.fallback_fields, 1);
    assert_eq!(table.term_occurrences, 10);
    assert_eq!(table.blocks, 2);
    assert_eq!(table.fields, 1);
    assert!(table.digest(0).is_none());
}
