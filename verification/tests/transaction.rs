use reth_kit::transaction::lookup::{
    after_disk, after_pool, after_pool_raw, block_to_load, find_by_sender_and_nonce, find_signer, found_in_block,
    historical, info_at, join_receipt, located_at, needs_receipt, DiskStep, RawStep,
};
use reth_kit::transaction::search::{
    after_best_block, after_block, after_code, after_count_at, after_latest_count,
    after_pool_lookup, first_ask, next_ask, Ask, BinarySearch, Outcome, Step,
};
use reth_kit::transaction::submit::{
    needs_nonce, pooled, prepare, sender_of, signing_account, with_gas_limit, ConfirmationWait,
    TxRequest, WaitAction, WaitEvent, WaitStage, CONFIRMATION_TIMEOUT_SECS,
};
use reth_kit::transaction::types::{
    Address, BlockEntry, BlockId, BlockNumberOrTag, BlockSummary, TransactionInfo,
    TransactionMeta, TransactionSource, TxError, B256,
};

fn hash(n: u128) -> B256 {
    B256 { hi: 0, lo: n }
}

fn who(n: u128) -> Address {
    Address { hi: 0, lo: n }
}

fn meta() -> TransactionMeta {
    TransactionMeta { tx_hash: hash(1), index: 4, block_hash: hash(2), block_number: 9, base_fee: Some(7) }
}

fn block() -> BlockSummary {
    BlockSummary {
        hash: hash(50),
        number: 12,
        base_fee: Some(3),
        entries: vec![
            BlockEntry { signer: who(1), hash: hash(100), nonce: 5 },
            BlockEntry { signer: who(2), hash: hash(101), nonce: 5 },
            BlockEntry { signer: who(1), hash: hash(102), nonce: 6 },
            BlockEntry { signer: who(1), hash: hash(103), nonce: 6 },
        ],
    }
}

#[test]
fn the_database_is_asked_before_the_pool() {
    assert!(matches!(after_disk::<u8>(None), DiskStep::AskPool));
    match after_disk(Some((Some("tx"), meta()))) {
        DiskStep::Done(Ok(source)) => assert_eq!(
            source,
            TransactionSource::Block { transaction: "tx", index: 4, block_hash: hash(2), block_number: 9, base_fee: Some(7) }
        ),
        _ => panic!("the transaction was found"),
    }
    assert!(matches!(
        after_disk::<u8>(Some((None, meta()))),
        DiskStep::Done(Err(TxError::InvalidTransactionSignature))
    ));
    assert_eq!(after_pool_raw(Some(vec![1, 2])), RawStep::Done(vec![1, 2]));
    assert_eq!(after_pool_raw(None), RawStep::AskProvider);
    assert_eq!(after_pool(Some(3u8)), Some(TransactionSource::Pool(3u8)));
    assert_eq!(after_pool::<u8>(None), None);
}

#[test]
fn a_pooled_transaction_is_pending() {
    assert_eq!(located_at(&TransactionSource::Pool(1u8)), BlockId::Number(BlockNumberOrTag::Pending));
    assert_eq!(BlockId::pending(), BlockId::Number(BlockNumberOrTag::Pending));
    let mined = TransactionSource::Block { transaction: 1u8, index: 0, block_hash: hash(8), block_number: 1, base_fee: None };
    let at = located_at(&mined);
    assert_eq!(at, BlockId::Hash { block_hash: hash(8), require_canonical: None });
    assert_eq!(block_to_load(&at), Some(hash(8)));
    assert_eq!(block_to_load(&BlockId::pending()), None);
    assert_eq!(BlockId::number(4).as_block_hash(), None);
    assert_eq!(BlockId::latest(), BlockId::Number(BlockNumberOrTag::Latest));
    assert_eq!(historical(TransactionSource::Pool(1u8), BlockId::pending()), None);
    assert_eq!(historical(TransactionSource::Pool(2u8), at), Some((TransactionSource::Pool(2u8), hash(8))));
}

#[test]
fn a_receipt_needs_its_transaction() {
    assert!(!needs_receipt::<u8>(&None));
    assert!(needs_receipt(&Some((1u8, meta()))));
    assert_eq!(join_receipt(Some((1u8, meta())), Some("r")), Some((1u8, meta(), "r")));
    assert_eq!(join_receipt(Some((1u8, meta())), None::<u8>), None);
    assert_eq!(join_receipt(None::<(u8, TransactionMeta)>, Some("r")), None);
}

#[test]
fn the_info_of_a_transaction_in_its_block() {
    let b = block();
    let (entry, info) = info_at(&b, 2).unwrap();
    assert_eq!(entry.hash, hash(102));
    assert_eq!(
        info,
        TransactionInfo { hash: Some(hash(102)), index: Some(2), block_hash: Some(hash(50)), block_number: Some(12), base_fee: Some(3) }
    );
    assert_eq!(info_at(&b, 4), None);
    let (index, info) = find_by_sender_and_nonce(&b, who(1), 6).unwrap();
    assert_eq!(index, 2);
    assert_eq!(info.hash, Some(hash(102)));
    assert_eq!(info.index, Some(2));
    assert_eq!(find_by_sender_and_nonce(&b, who(2), 6), None);
    assert_eq!(found_in_block(Some(&b), BlockId::number(12), who(2), 5).unwrap().0, 1);
    assert_eq!(found_in_block(Some(&b), BlockId::number(12), who(3), 5), Err(TxError::HeaderNotFound(BlockId::number(12))));
    assert_eq!(found_in_block(None, BlockId::number(12), who(1), 5), Err(TxError::HeaderNotFound(BlockId::number(12))));
}

#[test]
fn the_first_matching_signer_signs() {
    assert_eq!(find_signer(&vec![false, true, true]), Ok(1));
    assert_eq!(find_signer(&vec![false, false]), Err(TxError::NoAccount));
    assert_eq!(find_signer(&Vec::new()), Err(TxError::NoAccount));
}

fn search(low: u64, high: u64, first_passing: u64) -> (u64, usize) {
    let mut s = BinarySearch::new(low, high);
    let mut probes = 0;
    while let Some(mid) = s.probe() {
        assert!(low <= mid && mid <= high);
        s.answer(mid >= first_passing);
        probes += 1;
        assert!(probes <= 65);
    }
    (s.result(), probes)
}

#[test]
fn the_search_finds_the_first_block_that_passes() {
    assert_eq!(search(1, 100, 37).0, 37);
    assert_eq!(search(1, 100, 1).0, 1);
    assert_eq!(search(1, 100, 100).0, 100);
    assert_eq!(search(1, 100, 101).0, 100);
    assert_eq!(search(1, 1, 1).0, 1);
    assert_eq!(search(5, 4, 0).0, 4);
    assert_eq!(search(0, 10, 0).0, 0);
    assert_eq!(search(0, u64::MAX, u64::MAX).0, u64::MAX);
    assert_eq!(search(u64::MAX, u64::MAX, 0).0, u64::MAX);
    let (found, probes) = search(1, 1 << 40, 123_456_789);
    assert_eq!(found, 123_456_789);
    assert!(probes <= 41);
    for first in 1..=17u64 {
        assert_eq!(search(1, 16, first).0, first.min(16));
    }
}

#[test]
fn the_steps_of_the_search_for_a_sender_and_nonce() {
    assert_eq!(first_ask(true), Ask::Pool);
    assert_eq!(first_ask(false), Ask::Code);
    assert_eq!(after_pool_lookup(true), Step::Done(Outcome::Pending));
    assert_eq!(after_pool_lookup(false), Step::Ask(Ask::Code));
    assert_eq!(after_code(3), Step::Done(Outcome::Nothing));
    assert_eq!(after_code(0), Step::Ask(Ask::LatestCount));
    assert_eq!(after_latest_count(5, 5), Step::Done(Outcome::Nothing));
    assert_eq!(after_latest_count(6, 5), Step::Done(Outcome::Nothing));
    assert_eq!(after_latest_count(4, 5), Step::Ask(Ask::BestBlock));
    assert_eq!(after_best_block(None), Err(TxError::HeaderNotFound(BlockId::latest())));
    let mut s = after_best_block(Some(8)).unwrap();
    assert_eq!(s, BinarySearch { low: 1, high: 8, num: 8, done: false });
    // The sender's count exceeds the nonce 5 from block 6 on.
    let count_at = |n: u64| if n >= 6 { 9 } else { 2 };
    let mut asked = Vec::new();
    loop {
        match next_ask(&s) {
            Ask::CountAt(mid) => {
                asked.push(mid);
                after_count_at(&mut s, 5, count_at(mid));
            }
            other => {
                assert_eq!(other, Ask::Block(6));
                break;
            }
        }
    }
    assert_eq!(asked, vec![4, 6, 5]);
    let b = block();
    match after_block(Some(&b), 6, who(1), 5) {
        Outcome::Mined { block, index, info } => {
            assert_eq!((block, index), (6, 0));
            assert_eq!(info.hash, Some(hash(100)));
        }
        other => panic!("{other:?}"),
    }
    assert_eq!(after_block(Some(&b), 6, who(9), 5), Outcome::Failed(TxError::HeaderNotFound(BlockId::number(6))));
    assert_eq!(after_block(None, 6, who(1), 5), Outcome::Failed(TxError::HeaderNotFound(BlockId::number(6))));
}

#[test]
fn a_request_is_filled_before_it_is_signed() {
    let bare = TxRequest { from: Some(who(1)), nonce: None, chain_id: Some(5), gas_limit: Some(1) };
    assert_eq!(sender_of(&bare), Ok(who(1)));
    assert_eq!(signing_account(&bare, true), Ok(who(1)));
    assert_eq!(signing_account(&bare, false), Err(TxError::NoAccount));
    assert!(needs_nonce(&bare));
    let prepared = prepare(bare, 7, 1);
    assert_eq!(
        prepared,
        TxRequest { from: Some(who(1)), nonce: Some(7), chain_id: Some(1), gas_limit: Some(1) }
    );
    assert_eq!(
        with_gas_limit(prepared, 21000),
        TxRequest { from: Some(who(1)), nonce: Some(7), chain_id: Some(1), gas_limit: Some(21000) }
    );
    let set = TxRequest { from: None, nonce: Some(3), chain_id: None, gas_limit: None };
    assert_eq!(sender_of(&set), Err(TxError::NoAccount));
    assert_eq!(signing_account(&set, true), Err(TxError::NoAccount));
    assert!(!needs_nonce(&set));
    assert_eq!(prepare(set, 7, 1).nonce, Some(3));
    assert_eq!(prepare(set, 7, 1).gas_limit, None);
    assert_eq!(pooled(Some(1u8)), Ok(1u8));
    assert_eq!(pooled::<u8>(None), Err(TxError::TransactionConversionError));
}

#[test]
fn the_wait_for_a_receipt() {
    let timeout = TxError::TransactionConfirmationTimeout { hash: hash(9), seconds: 30 };
    assert_eq!(CONFIRMATION_TIMEOUT_SECS, 30);
    let mut wait = ConfirmationWait::new(hash(9));
    assert_eq!(wait.stage, WaitStage::Watching);
    assert_eq!(wait.advance(WaitEvent::Block { contains: false }), WaitAction::NextBlock);
    assert_eq!(wait.advance(WaitEvent::Block { contains: true }), WaitAction::FetchReceipt);
    assert_eq!(wait.advance(WaitEvent::Receipt { found: false }), WaitAction::NextBlock);
    assert_eq!(wait.stage, WaitStage::Watching);
    assert_eq!(wait.advance(WaitEvent::Block { contains: true }), WaitAction::FetchReceipt);
    assert_eq!(wait.advance(WaitEvent::Receipt { found: true }), WaitAction::Confirmed);
    assert_eq!(wait.advance(WaitEvent::TimedOut), WaitAction::Confirmed);

    let mut wait = ConfirmationWait::new(hash(9));
    assert_eq!(wait.advance(WaitEvent::StreamEnded), WaitAction::Fail(timeout));
    assert_eq!(wait.advance(WaitEvent::Block { contains: true }), WaitAction::Fail(timeout));
    assert_eq!(wait.stage, WaitStage::GivenUp);

    let mut wait = ConfirmationWait::new(hash(9));
    assert_eq!(wait.advance(WaitEvent::Block { contains: true }), WaitAction::FetchReceipt);
    assert_eq!(wait.advance(WaitEvent::TimedOut), WaitAction::Fail(timeout));
}
