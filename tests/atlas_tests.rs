use atlas::attachment::{
    new_attachment_from, Attachment, AttachmentInstance, BlockHeaderHash, ContractId,
    InstanceError, TupleEntry, Value,
};
use atlas::batch::{new_attachments_batch_from, AttachmentsBatch};
use atlas::context::{
    AttachmentPage, AttachmentsBatchStateContext, BatchedRequestsResult, ConnectionOptions,
    GetAttachmentsInvResponse,
};
use atlas::hash::Hash160;
use atlas::queue::PriorityQueue;
use atlas::reliability::ReliabilityReport;
use atlas::requests::{AttachmentRequest, AttachmentsInventoryRequest};
use atlas::round::{
    conclude_round, next_phase, retain_resolved_peers, RoundEvent, RoundOutcome, RoundPhase,
};

fn hex_digit(c: u8) -> u8 {
    match c {
        b'0'..=b'9' => c - b'0',
        b'a'..=b'f' => c - b'a' + 10,
        b'A'..=b'F' => c - b'A' + 10,
        _ => panic!("not a hex digit"),
    }
}

fn bytes_from_hex(s: &str) -> Vec<u8> {
    let b = s.as_bytes();
    (0..b.len() / 2)
        .map(|i| hex_digit(b[2 * i]) * 16 + hex_digit(b[2 * i + 1]))
        .collect()
}

fn hash_from_hex(s: &str) -> Hash160 {
    Hash160::from_bytes(&bytes_from_hex(s)).unwrap()
}

/// A distinct digest per content of at most 20 bytes: the content, zero padded.
fn hash_of(attachment: &Attachment) -> Hash160 {
    let mut bytes = attachment.content.clone();
    bytes.resize(20, 0);
    Hash160::from_bytes(&bytes).unwrap()
}

fn entry(name: &str, value: Value) -> TupleEntry {
    TupleEntry {
        name: name.to_string(),
        value,
    }
}

fn attachment_value(fields: Vec<TupleEntry>) -> Value {
    Value::Tuple(vec![entry("attachment", Value::Tuple(fields))])
}

fn metadata() -> TupleEntry {
    entry(
        "metadata",
        Value::Tuple(vec![entry("name", Value::Str("stacks".to_string()))]),
    )
}

fn parse(value: &Value) -> Result<AttachmentInstance, InstanceError> {
    AttachmentInstance::try_new_from_value(
        value,
        &ContractId::transient(),
        &Hash160::empty(),
        BlockHeaderHash { bytes: [0x00; 32] },
        0,
    )
}

fn new_attachment_instance_from(
    attachment: &Attachment,
    position_in_page: u32,
    page_index: u32,
    block_height: u64,
) -> AttachmentInstance {
    AttachmentInstance {
        content_hash: hash_of(attachment),
        page_index,
        position_in_page,
        block_height,
        consensus_hash: Hash160::empty(),
        metadata: "".to_string(),
        contract_id: ContractId::transient(),
        block_header_hash: BlockHeaderHash { bytes: [0x00; 32] },
    }
}

fn new_peers(peers: Vec<(&str, u32, u32)>) -> Vec<(String, ReliabilityReport)> {
    peers
        .into_iter()
        .map(|(url, sent, success)| (url.to_string(), ReliabilityReport::new(sent, success)))
        .collect()
}

fn new_attachment_request(
    sources: Vec<(&str, u32, u32)>,
    content_hash: &Hash160,
) -> AttachmentRequest {
    AttachmentRequest {
        sources: new_peers(sources),
        content_hash: *content_hash,
    }
}

fn new_attachments_inventory_request(
    url: &str,
    pages: Vec<u32>,
    block_height: u64,
    req_sent: u32,
    req_success: u32,
) -> AttachmentsInventoryRequest {
    AttachmentsInventoryRequest {
        url: url.to_string(),
        block_height,
        pages,
        contract_id: ContractId::transient(),
        reliability_report: ReliabilityReport::new(req_sent, req_success),
    }
}

fn new_attachments_inventory_response(pages: Vec<(u32, Vec<u8>)>) -> GetAttachmentsInvResponse {
    GetAttachmentsInvResponse {
        pages: pages
            .into_iter()
            .map(|(index, inventory)| AttachmentPage { index, inventory })
            .collect(),
    }
}

#[test]
fn test_attachment_instance_parsing() {
    let value_1 = attachment_value(vec![
        entry("position-in-page", Value::UInt(1)),
        entry("page-index", Value::UInt(1)),
        entry("hash", Value::Buffer(vec![])),
        metadata(),
    ]);
    let attachment_instance_1 = parse(&value_1).unwrap();
    assert_eq!(attachment_instance_1.page_index, 1);
    assert_eq!(attachment_instance_1.position_in_page, 1);
    assert_eq!(attachment_instance_1.content_hash, Hash160::empty());

    let value_2 = attachment_value(vec![
        entry("position-in-page", Value::UInt(2)),
        entry("page-index", Value::UInt(2)),
        entry(
            "hash",
            Value::Buffer(bytes_from_hex("d37581093088f5237a8dc885f38c231e42389cb2")),
        ),
        metadata(),
    ]);
    let attachment_instance_2 = parse(&value_2).unwrap();
    assert_eq!(attachment_instance_2.page_index, 2);
    assert_eq!(attachment_instance_2.position_in_page, 2);
    assert_eq!(
        attachment_instance_2.content_hash,
        hash_from_hex("d37581093088f5237a8dc885f38c231e42389cb2")
    );

    let value_3 = attachment_value(vec![
        entry("position-in-page", Value::UInt(3)),
        entry("page-index", Value::UInt(3)),
        entry(
            "hash",
            Value::Buffer(bytes_from_hex("d37581093088f5237a8dc885f38c231e42389cb2")),
        ),
    ]);
    let attachment_instance_3 = parse(&value_3).unwrap();
    assert_eq!(attachment_instance_3.page_index, 3);
    assert_eq!(attachment_instance_3.position_in_page, 3);
    assert_eq!(
        attachment_instance_3.content_hash,
        hash_from_hex("d37581093088f5237a8dc885f38c231e42389cb2")
    );

    let values = [
        attachment_value(vec![
            entry("position-in-page", Value::Int(1)),
            entry("page-index", Value::UInt(1)),
            entry("hash", Value::Buffer(vec![])),
        ]),
        attachment_value(vec![
            entry("position-in-page", Value::UInt(1)),
            entry("page-index", Value::UInt(1)),
            entry("hash", Value::Buffer(bytes_from_hex("1323"))),
        ]),
        attachment_value(vec![
            entry("position-in-page", Value::UInt(1)),
            entry("pages-index", Value::UInt(1)),
            entry("hash", Value::Buffer(vec![])),
        ]),
    ];

    for value in values.iter() {
        parse(value).unwrap_err();
    }
}

#[test]
fn test_attachments_batch_ordering() {
    // Batch 1: 4 attachments, never tried, emitted at block #1
    let attachments_batch_1 = new_attachments_batch_from(
        vec![
            new_attachment_instance_from(&new_attachment_from("facade01"), 1, 1, 1),
            new_attachment_instance_from(&new_attachment_from("facade02"), 2, 1, 1),
            new_attachment_instance_from(&new_attachment_from("facade03"), 3, 1, 1),
            new_attachment_instance_from(&new_attachment_from("facade04"), 4, 1, 1),
        ],
        0,
    );

    // Batch 2: 5 attachments, never tried, emitted at block #2
    let attachments_batch_2 = new_attachments_batch_from(
        vec![
            new_attachment_instance_from(&new_attachment_from("facade11"), 1, 1, 2),
            new_attachment_instance_from(&new_attachment_from("facade12"), 2, 1, 2),
            new_attachment_instance_from(&new_attachment_from("facade13"), 3, 1, 2),
            new_attachment_instance_from(&new_attachment_from("facade14"), 4, 1, 2),
            new_attachment_instance_from(&new_attachment_from("facade15"), 5, 1, 2),
        ],
        0,
    );

    // Batch 3: 4 attachments, tried once, emitted at block #3
    let attachments_batch_3 = new_attachments_batch_from(
        vec![
            new_attachment_instance_from(&new_attachment_from("facade21"), 1, 2, 3),
            new_attachment_instance_from(&new_attachment_from("facade22"), 2, 2, 3),
            new_attachment_instance_from(&new_attachment_from("facade23"), 3, 2, 3),
            new_attachment_instance_from(&new_attachment_from("facade24"), 4, 2, 3),
        ],
        1,
    );

    // Batch 4: 4 attachments, never tried, emitted at block #4
    let attachments_batch_4 = new_attachments_batch_from(
        vec![
            new_attachment_instance_from(&new_attachment_from("facade31"), 1, 3, 4),
            new_attachment_instance_from(&new_attachment_from("facade32"), 2, 3, 4),
            new_attachment_instance_from(&new_attachment_from("facade33"), 3, 3, 4),
            new_attachment_instance_from(&new_attachment_from("facade34"), 4, 3, 4),
        ],
        0,
    );

    let mut priority_queue = PriorityQueue::new();
    priority_queue.push(attachments_batch_1.clone());
    priority_queue.push(attachments_batch_2.clone());
    priority_queue.push(attachments_batch_3.clone());
    priority_queue.push(attachments_batch_4.clone());

    assert_eq!(priority_queue.pop().unwrap(), attachments_batch_2);
    assert_eq!(priority_queue.pop().unwrap(), attachments_batch_1);
    assert_eq!(priority_queue.pop().unwrap(), attachments_batch_4);
    assert_eq!(priority_queue.pop().unwrap(), attachments_batch_3);
}

#[test]
fn test_attachments_inventory_requests_ordering() {
    let attachments_inventory_1_request =
        new_attachments_inventory_request("http://localhost:20443", vec![0, 1], 1, 0, 0);
    let attachments_inventory_2_request =
        new_attachments_inventory_request("http://localhost:30443", vec![0, 1], 1, 2, 1);
    let attachments_inventory_3_request =
        new_attachments_inventory_request("http://localhost:40443", vec![0, 1], 1, 2, 2);
    let attachments_inventory_4_request =
        new_attachments_inventory_request("http://localhost:50443", vec![0, 1], 1, 4, 4);

    let mut priority_queue = PriorityQueue::new();
    priority_queue.push(attachments_inventory_2_request.clone());
    priority_queue.push(attachments_inventory_1_request.clone());
    priority_queue.push(attachments_inventory_4_request.clone());
    priority_queue.push(attachments_inventory_3_request.clone());

    assert_eq!(priority_queue.pop().unwrap(), attachments_inventory_4_request);
    assert_eq!(priority_queue.pop().unwrap(), attachments_inventory_3_request);
    assert_eq!(priority_queue.pop().unwrap(), attachments_inventory_2_request);
    assert_eq!(priority_queue.pop().unwrap(), attachments_inventory_1_request);
}

#[test]
fn test_attachment_requests_ordering() {
    let attachment_1 = new_attachment_from("facade01");
    let attachment_2 = new_attachment_from("facade02");
    let attachment_3 = new_attachment_from("facade03");
    let attachment_4 = new_attachment_from("facade04");

    // The peer on port 30443 has one request sent and none succeeded: score 1/3.
    let attachment_1_request = new_attachment_request(
        vec![
            ("http://localhost:20443", 2, 2),
            ("http://localhost:40443", 1, 0),
        ],
        &hash_of(&attachment_1),
    );
    let attachment_2_request = new_attachment_request(
        vec![
            ("http://localhost:20443", 2, 2),
            ("http://localhost:40443", 1, 0),
            ("http://localhost:30443", 1, 0),
        ],
        &hash_of(&attachment_2),
    );
    let attachment_3_request =
        new_attachment_request(vec![("http://localhost:30443", 1, 0)], &hash_of(&attachment_3));
    let attachment_4_request =
        new_attachment_request(vec![("http://localhost:50443", 4, 4)], &hash_of(&attachment_4));

    let mut priority_queue = PriorityQueue::new();
    priority_queue.push(attachment_1_request.clone());
    priority_queue.push(attachment_3_request.clone());
    priority_queue.push(attachment_4_request.clone());
    priority_queue.push(attachment_2_request.clone());

    assert_eq!(priority_queue.pop().unwrap(), attachment_4_request);
    assert_eq!(priority_queue.pop().unwrap(), attachment_3_request);
    assert_eq!(priority_queue.pop().unwrap(), attachment_1_request);
    assert_eq!(priority_queue.pop().unwrap(), attachment_2_request);
}

#[test]
fn test_attachments_batch_constructs() {
    let attachment_instance_1 =
        new_attachment_instance_from(&new_attachment_from("facade11"), 1, 1, 1);
    let attachment_instance_2 =
        new_attachment_instance_from(&new_attachment_from("facade12"), 2, 1, 1);
    let attachment_instance_3 =
        new_attachment_instance_from(&new_attachment_from("facade13"), 3, 1, 1);
    let attachment_instance_4 =
        new_attachment_instance_from(&new_attachment_from("facade14"), 4, 1, 1);
    let attachment_instance_5 =
        new_attachment_instance_from(&new_attachment_from("facade15"), 1, 2, 1);

    let mut attachments_batch = AttachmentsBatch::new();
    attachments_batch.track_attachment(&attachment_instance_1);
    attachments_batch.track_attachment(&attachment_instance_2);
    attachments_batch.track_attachment(&attachment_instance_3);
    attachments_batch.track_attachment(&attachment_instance_4);
    attachments_batch.track_attachment(&attachment_instance_5);

    let default_contract_id = ContractId::transient();

    assert_eq!(attachments_batch.attachments_instances_count(), 5);
    assert_eq!(
        attachments_batch
            .get_missing_pages_for_contract_id(&default_contract_id)
            .len(),
        2
    );

    attachments_batch.resolve_attachment(&attachment_instance_5.content_hash);
    assert_eq!(attachments_batch.attachments_instances_count(), 4);
    assert_eq!(
        attachments_batch
            .get_missing_pages_for_contract_id(&default_contract_id)
            .len(),
        1
    );

    // should be idempotent
    attachments_batch.resolve_attachment(&attachment_instance_5.content_hash);
    assert_eq!(attachments_batch.attachments_instances_count(), 4);

    attachments_batch.resolve_attachment(&attachment_instance_2.content_hash);
    attachments_batch.resolve_attachment(&attachment_instance_3.content_hash);
    attachments_batch.resolve_attachment(&attachment_instance_4.content_hash);
    assert_eq!(attachments_batch.has_fully_succeed(), false);

    attachments_batch.resolve_attachment(&attachment_instance_1.content_hash);
    assert_eq!(attachments_batch.has_fully_succeed(), true);
    assert_eq!(
        attachments_batch
            .get_missing_pages_for_contract_id(&default_contract_id)
            .len(),
        0
    );
}

fn ten_page_batch() -> (AttachmentsBatch, Vec<AttachmentInstance>) {
    let contents = [
        ("facade11", 1, 1),
        ("facade12", 2, 2),
        ("facade13", 3, 3),
        ("facade14", 4, 4),
        ("facade15", 1, 5),
        ("facade16", 1, 6),
        ("facade17", 2, 7),
        ("facade18", 3, 8),
        ("facade19", 4, 9),
        ("facade20", 1, 10),
    ];
    let instances: Vec<AttachmentInstance> = contents
        .iter()
        .map(|(c, pos, page)| new_attachment_instance_from(&new_attachment_from(c), *pos, *page, 1))
        .collect();
    let mut attachments_batch = AttachmentsBatch::new();
    for instance in instances.iter() {
        attachments_batch.track_attachment(instance);
    }
    (attachments_batch, instances)
}

#[test]
fn test_attachments_batch_pages() {
    let (mut attachments_batch, instances) = ten_page_batch();
    let default_contract_id = ContractId::transient();

    assert_eq!(attachments_batch.attachments_instances_count(), 10);
    assert_eq!(
        attachments_batch
            .get_missing_pages_for_contract_id(&default_contract_id)
            .len(),
        10
    );
    assert_eq!(
        attachments_batch
            .get_paginated_missing_pages_for_contract_id(&default_contract_id)
            .len(),
        2
    );

    attachments_batch.resolve_attachment(&instances[0].content_hash);
    attachments_batch.resolve_attachment(&instances[1].content_hash);
    attachments_batch.resolve_attachment(&instances[2].content_hash);

    assert_eq!(
        attachments_batch
            .get_paginated_missing_pages_for_contract_id(&default_contract_id)
            .len(),
        1
    );
}

#[test]
fn test_downloader_context_attachment_inventories_requests() {
    let attachments_batch = new_attachments_batch_from(
        vec![
            new_attachment_instance_from(&new_attachment_from("facade01"), 1, 1, 1),
            new_attachment_instance_from(&new_attachment_from("facade02"), 2, 1, 1),
            new_attachment_instance_from(&new_attachment_from("facade03"), 3, 1, 1),
            new_attachment_instance_from(&new_attachment_from("facade04"), 1, 2, 1),
        ],
        0,
    );
    let peers = new_peers(vec![
        ("http://localhost:20443", 2, 2),
        ("http://localhost:30443", 3, 3),
        ("http://localhost:40443", 0, 0),
    ]);
    let context =
        AttachmentsBatchStateContext::new(attachments_batch, peers, &ConnectionOptions::default());

    let mut request_queue = context.get_prioritized_attachments_inventory_requests();
    let request = request_queue.pop().unwrap();
    assert_eq!(request.get_url(), "http://localhost:30443");
    assert_eq!(request.pages, vec![1, 2]);

    let request = request_queue.pop().unwrap();
    assert_eq!(request.get_url(), "http://localhost:20443");
    assert_eq!(request.pages, vec![1, 2]);

    let request = request_queue.pop().unwrap();
    assert_eq!(request.get_url(), "http://localhost:40443");
    assert_eq!(request.pages, vec![1, 2]);
}

#[test]
fn test_downloader_context_attachment_requests() {
    let attachment_1 = new_attachment_from("facade01");
    let attachment_2 = new_attachment_from("facade02");
    let attachment_3 = new_attachment_from("facade03");
    let attachment_4 = new_attachment_from("facade04");

    let attachments_batch = new_attachments_batch_from(
        vec![
            new_attachment_instance_from(&attachment_1, 0, 1, 1),
            new_attachment_instance_from(&attachment_2, 1, 1, 1),
            new_attachment_instance_from(&attachment_3, 2, 1, 1),
            new_attachment_instance_from(&attachment_4, 0, 2, 1),
        ],
        0,
    );
    let peers = new_peers(vec![
        ("http://localhost:20443", 4, 4),
        ("http://localhost:30443", 3, 3),
        ("http://localhost:40443", 2, 2),
        ("http://localhost:50443", 1, 1),
    ]);
    let context =
        AttachmentsBatchStateContext::new(attachments_batch, peers, &ConnectionOptions::default());

    let mut inventories_requests = context.get_prioritized_attachments_inventory_requests();
    let mut inventories_results = BatchedRequestsResult::empty();

    let request = inventories_requests.pop().unwrap();
    let peer_url_1 = request.get_url().clone();
    let request = inventories_requests.pop().unwrap();
    let peer_url_2 = request.get_url().clone();
    let request = inventories_requests.pop().unwrap();
    let peer_url_3 = request.get_url().clone();
    let request = inventories_requests.pop().unwrap();
    let peer_url_4 = request.get_url().clone();
    let mut responses = Vec::new();

    let response_1 =
        new_attachments_inventory_response(vec![(1, vec![1, 1, 1]), (2, vec![0, 0, 0])]);
    responses.push((peer_url_1.clone(), Some(response_1)));

    let response_2 =
        new_attachments_inventory_response(vec![(1, vec![1, 1, 1]), (2, vec![0, 0, 0])]);
    responses.push((peer_url_2.clone(), Some(response_2)));

    let response_3 =
        new_attachments_inventory_response(vec![(1, vec![0, 1, 1]), (2, vec![1, 0, 0])]);
    responses.push((peer_url_3.clone(), Some(response_3)));
    responses.push((peer_url_4, None));

    inventories_results.succeeded.push((request, responses));

    let context = context.extend_with_inventories(&inventories_results);

    let mut attachments_requests = context.get_prioritized_attachments_requests();

    // Attachment 4 is the rarest resource
    let request = attachments_requests.pop().unwrap();
    assert_eq!(request.content_hash, hash_of(&attachment_4));
    // Peer 3 is the only peer showing Attachment 4 as being available in its inventory
    assert_eq!(request.get_url(), Some(&peer_url_3));

    // Attachment 1 is the 2nd rarest resource
    let request = attachments_requests.pop().unwrap();
    assert_eq!(request.content_hash, hash_of(&attachment_1));
    // Both Peer 1 and Peer 2 could serve Attachment 1, but Peer 1 has a better history
    assert_eq!(request.get_url(), Some(&peer_url_1));

    // The 2 last requests can be served by Peer 1, 2 and 3, and are served by Peer 1.
    let request = attachments_requests.pop().unwrap();
    assert_eq!(request.get_url(), Some(&peer_url_1));

    let request = attachments_requests.pop().unwrap();
    assert_eq!(request.get_url(), Some(&peer_url_1));
}

#[test]
fn test_downloader_dns_state_machine() {
    let peers = new_peers(vec![
        ("http://localhost:20443", 4, 4),
        ("http://localhost:30443", 3, 3),
        ("http://localhost:40443", 2, 2),
    ]);
    let kept = retain_resolved_peers(peers.clone(), &vec![true, false, true]);
    assert_eq!(kept, vec![peers[0].clone(), peers[2].clone()]);
}

#[test]
fn test_downloader_batched_requests_state_machine() {
    let mut phase = RoundPhase::ResolvingPeerAddresses;
    for event in [
        RoundEvent::PeerAddressesResolved,
        RoundEvent::InventoryResponsesCollected,
        RoundEvent::AttachmentResponsesCollected,
    ] {
        phase = next_phase(phase, event).unwrap();
    }
    assert_eq!(phase, RoundPhase::RoundComplete);
    assert_eq!(
        next_phase(RoundPhase::RoundComplete, RoundEvent::PeerAddressesResolved),
        None
    );
    assert_eq!(
        next_phase(
            RoundPhase::ResolvingPeerAddresses,
            RoundEvent::InventoryResponsesCollected
        ),
        None
    );
}
