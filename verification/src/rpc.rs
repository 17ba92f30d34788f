//! What the RPC surface asks of the core: a submission request becomes a
//! transaction without a signature, is handed to the engine, and is
//! answered with the hex text of its id.
use crate::consensus::{ConsensusEngine, ConsensusError};
use crate::mempool::inserted;
use crate::types::{copy_items, tx_id_of, NamespaceId, Transaction, TransactionView};
use vstd::prelude::*;
use vstd::string::StringExecFns;

verus! {

/// A request to submit a transaction. The payload is text; its UTF-8
/// bytes are the payload of the transaction.
#[derive(Debug)]
pub struct SubmitTxRequest {
    pub namespace: u64,
    pub gas_price: u64,
    pub nonce: u64,
    pub payload: String,
}

/// The answer to a submission: the id of the transaction as hex text.
#[derive(Debug)]
pub struct SubmitTxResponse {
    pub tx_id: String,
}

/// The answer to a status query.
#[derive(Clone, Copy, Debug)]
pub struct TxStatusResponse {
    pub found: bool,
}

/// The lower-case hex digit of a value below 16.
pub open spec fn hex_digit(n: int) -> char {
    "0123456789abcdef"@[n]
}

/// Bytes as lower-case hex text: two digits a byte, the high one first.
pub open spec fn hex_of(bytes: Seq<u8>) -> Seq<char>
    decreases bytes.len(),
{
    if bytes.len() == 0 {
        Seq::empty()
    } else {
        hex_of(bytes.drop_last()) + seq![
            hex_digit(bytes.last() as int / 16),
            hex_digit(bytes.last() as int % 16),
        ]
    }
}

/// The lower-case hex digit of `n` as text.
fn hex_digit_text(n: u8) -> (s: &'static str)
    requires
        n < 16,
    ensures
        s@ == seq![hex_digit(n as int)],
{
    proof {
        reveal_strlit("0123456789abcdef");
        reveal_strlit("0");
        reveal_strlit("1");
        reveal_strlit("2");
        reveal_strlit("3");
        reveal_strlit("4");
        reveal_strlit("5");
        reveal_strlit("6");
        reveal_strlit("7");
        reveal_strlit("8");
        reveal_strlit("9");
        reveal_strlit("a");
        reveal_strlit("b");
        reveal_strlit("c");
        reveal_strlit("d");
        reveal_strlit("e");
        reveal_strlit("f");
    }
    let s = if n == 0 {
        "0"
    } else if n == 1 {
        "1"
    } else if n == 2 {
        "2"
    } else if n == 3 {
        "3"
    } else if n == 4 {
        "4"
    } else if n == 5 {
        "5"
    } else if n == 6 {
        "6"
    } else if n == 7 {
        "7"
    } else if n == 8 {
        "8"
    } else if n == 9 {
        "9"
    } else if n == 10 {
        "a"
    } else if n == 11 {
        "b"
    } else if n == 12 {
        "c"
    } else if n == 13 {
        "d"
    } else if n == 14 {
        "e"
    } else {
        "f"
    };
    proof {
        assert(s@ =~= seq![hex_digit(n as int)]);
    }
    s
}

/// `bytes` as lower-case hex text.
pub fn hex_text(bytes: &[u8]) -> (s: String)
    ensures
        s@ == hex_of(bytes@),
{
    let mut s = String::new();
    let mut i: usize = 0;
    while i < bytes.len()
        invariant
            i <= bytes.len(),
            s@ == hex_of(bytes@.take(i as int)),
        decreases bytes.len() - i,
    {
        let b = bytes[i];
        proof {
            assert(bytes@.take(i + 1).drop_last() =~= bytes@.take(i as int));
            assert(bytes@.take(i + 1).last() == b);
        }
        s.append(hex_digit_text(b / 16));
        s.append(hex_digit_text(b % 16));
        proof {
            assert(s@ =~= hex_of(bytes@.take(i + 1)));
        }
        i = i + 1;
    }
    proof {
        assert(bytes@.take(bytes@.len() as int) =~= bytes@);
    }
    s
}

/// The content of the transaction that a request asks to submit.
pub open spec fn request_tx(req: SubmitTxRequest) -> TransactionView {
    TransactionView {
        namespace: NamespaceId(req.namespace),
        gas_price: req.gas_price,
        nonce: req.nonce,
        payload: vstd::utf8::encode_utf8(req.payload@),
        signature: Seq::empty(),
    }
}

/// The transaction that a request asks to submit: its fields, the bytes
/// of its payload text, and no signature.
pub fn transaction_of(req: &SubmitTxRequest) -> (tx: Transaction)
    ensures
        tx@ == request_tx(*req),
{
    Transaction {
        namespace: NamespaceId(req.namespace),
        gas_price: req.gas_price,
        nonce: req.nonce,
        payload: copy_items(req.payload.as_str().as_bytes()),
        signature: Vec::new(),
    }
}

/// Submits the transaction of `req` to `engine`. A full mempool refuses
/// it, and the engine's failure comes back; else the answer is the hex
/// text of the transaction's id, and the transaction is pending.
pub fn handle_submit_tx<E: ConsensusEngine>(engine: &mut E, req: &SubmitTxRequest) -> (r: Result<
    SubmitTxResponse,
    ConsensusError,
>)
    requires
        old(engine).inv(),
    ensures
        final(engine).inv(),
        final(engine).rounds_left() == old(engine).rounds_left(),
        final(engine).pending_limit() == old(engine).pending_limit(),
        final(engine).pending_txs() == inserted(
            old(engine).pending_txs(),
            old(engine).pending_limit(),
            request_tx(*req),
        ),
        r is Err <==> old(engine).pending_txs().len() >= old(engine).pending_limit(),
        r is Err ==> r->Err_0 is Mempool,
        r is Ok ==> r->Ok_0.tx_id@ == hex_of(tx_id_of(request_tx(*req)).0.0@),
{
    let tx = transaction_of(req);
    match engine.submit_tx(tx) {
        Ok(id) => Ok(SubmitTxResponse { tx_id: hex_text(id.0.0.as_slice()) }),
        Err(e) => Err(e),
    }
}

} // verus!
