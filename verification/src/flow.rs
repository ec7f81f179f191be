//! The network-flow record exchanged end to end, its mathematical model,
//! and the validity predicate the processor's validator pool applies.

use vstd::prelude::*;

verus! {

/// The mathematical value of one flow record: string fields are sequences of
/// characters, every other field keeps its machine type. Contracts throughout
/// the crate speak of this model.
pub struct FlowModel {
    pub flow_id: i64,
    pub src_ip: Option<Seq<char>>,
    pub dst_ip: Option<Seq<char>>,
    pub src_port: Option<i32>,
    pub dst_port: Option<i32>,
    pub protocol: Option<i16>,
    pub bytes: Option<i64>,
    pub packets: Option<i64>,
    pub start_ts: Option<i64>,
    pub end_ts: Option<i64>,
    pub src_asn: Option<i32>,
    pub dst_asn: Option<i32>,
}

impl FlowModel {
    /// A record is complete when every field except the two ports is present.
    pub open spec fn is_complete(self) -> bool {
        &&& self.src_ip is Some
        &&& self.dst_ip is Some
        &&& self.protocol is Some
        &&& self.bytes is Some
        &&& self.packets is Some
        &&& self.start_ts is Some
        &&& self.end_ts is Some
        &&& self.src_asn is Some
        &&& self.dst_asn is Some
    }
}

/// One network-flow record. `flow_id` is the scan ordering key; every other
/// field is independently nullable.
#[derive(Debug, Clone, PartialEq)]
pub struct Netflow {
    pub flow_id: i64,
    pub src_ip: Option<String>,
    pub dst_ip: Option<String>,
    pub src_port: Option<i32>,
    pub dst_port: Option<i32>,
    pub protocol: Option<i16>,
    pub bytes: Option<i64>,
    pub packets: Option<i64>,
    pub start_ts: Option<i64>,
    pub end_ts: Option<i64>,
    pub src_asn: Option<i32>,
    pub dst_asn: Option<i32>,
}

pub open spec fn opt_string_model(o: Option<String>) -> Option<Seq<char>> {
    match o {
        Some(s) => Some(s@),
        None => None,
    }
}

impl View for Netflow {
    type V = FlowModel;

    open spec fn view(&self) -> FlowModel {
        FlowModel {
            flow_id: self.flow_id,
            src_ip: opt_string_model(self.src_ip),
            dst_ip: opt_string_model(self.dst_ip),
            src_port: self.src_port,
            dst_port: self.dst_port,
            protocol: self.protocol,
            bytes: self.bytes,
            packets: self.packets,
            start_ts: self.start_ts,
            end_ts: self.end_ts,
            src_asn: self.src_asn,
            dst_asn: self.dst_asn,
        }
    }
}

/// The models of a batch of records, in order.
pub open spec fn batch_model(s: Seq<Netflow>) -> Seq<FlowModel> {
    s.map_values(|n: Netflow| n@)
}

/// The predicate the validator pool filters by, on whole records.
pub open spec fn complete_pred() -> spec_fn(Netflow) -> bool {
    |n: Netflow| n@.is_complete()
}

impl Netflow {
    /// A record is kept by the validator pool exactly when every field except
    /// the two ports is present.
    pub fn is_valid(&self) -> (r: bool)
        ensures
            r == self@.is_complete(),
    {
        self.src_ip.is_some() && self.dst_ip.is_some() && self.protocol.is_some()
            && self.bytes.is_some() && self.packets.is_some() && self.start_ts.is_some()
            && self.end_ts.is_some() && self.src_asn.is_some() && self.dst_asn.is_some()
    }
}

/// Keeps exactly the complete records of a batch, in their original order:
/// the work of one validator pass over one received batch.
pub fn validate_chunk(batch: Vec<Netflow>) -> (r: Vec<Netflow>)
    ensures
        r@ == batch@.filter(complete_pred()),
        forall|i: int| 0 <= i < r@.len() ==> (#[trigger] r@[i])@.is_complete(),
{
    let ghost all = batch@;
    let mut rest = batch;
    let mut kept: Vec<Netflow> = Vec::new();
    let mut taken: usize = 0;
    proof {
        reveal(Seq::filter);
        vstd::std_specs::vec::axiom_spec_len(&rest);
        assert(all.take(0) =~= Seq::<Netflow>::empty());
        assert(Seq::<Netflow>::empty().filter(complete_pred()) =~= Seq::<Netflow>::empty());
    }
    while rest.len() > 0
        invariant
            all.len() <= usize::MAX,
            taken + rest@.len() == all.len(),
            all == all.take(taken as int) + rest@,
            kept@ == all.take(taken as int).filter(complete_pred()),
        decreases rest@.len(),
    {
        let n = rest.remove(0);
        let ghost prefix = all.take(taken as int);
        proof {
            reveal(Seq::filter);
            assert(n == all[taken as int]);
            assert(all.take(taken as int + 1) =~= prefix.push(n));
            assert(prefix.push(n).drop_last() =~= prefix);
            assert(prefix.push(n).last() == n);
            assert(prefix.push(n).filter(complete_pred()) == if complete_pred()(n) {
                prefix.filter(complete_pred()).push(n)
            } else {
                prefix.filter(complete_pred())
            });
        }
        if n.is_valid() {
            kept.push(n);
        }
        taken = taken + 1;
        proof {
            assert(all =~= all.take(taken as int) + rest@);
        }
    }
    proof {
        assert(all.take(taken as int) =~= all);
        assert forall|i: int| 0 <= i < kept@.len() implies (#[trigger] kept@[i])@.is_complete() by {
            all.lemma_filter_pred(complete_pred(), i);
        }
    }
    kept
}

} // verus!
