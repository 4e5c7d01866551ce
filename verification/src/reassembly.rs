//! Stateful byte reassembly: SOME/IP-TP segment accumulation per flow, and
//! TCP byte-stream re-framing per connection (a stream has no datagram
//! boundaries, so messages are released only once whole).

use vstd::prelude::*;

use crate::demux::{someip_end, spec_pdu_ranges, spec_pdu_stop, valid_someip_at};
use crate::types::IpAddress;

verus! {

/// The key of one segmented transfer: endpoints plus the message identity.
#[derive(Clone, Copy, PartialEq, Eq, Structural, Debug)]
pub struct FlowKey {
    pub src: IpAddress,
    pub dst: IpAddress,
    pub src_port: u16,
    pub dst_port: u16,
    pub service_id: u16,
    pub method_id: u16,
    pub client_id: u16,
}

/// The key of one TCP connection.
#[derive(Clone, Copy, PartialEq, Eq, Structural, Debug)]
pub struct ConnKey {
    pub src: IpAddress,
    pub dst: IpAddress,
    pub src_port: u16,
    pub dst_port: u16,
}

/// Per-flow reassembly table for segmented (TP) messages.
pub struct TpReassembler {
    pub entries: Vec<(FlowKey, Vec<u8>)>,
}

/// The buffers as a sequence of (key, bytes).
pub open spec fn tp_view(t: TpReassembler) -> Seq<(FlowKey, Seq<u8>)> {
    t.entries@.map_values(|e: (FlowKey, Vec<u8>)| (e.0, e.1@))
}

pub open spec fn has_flow(es: Seq<(FlowKey, Seq<u8>)>, key: FlowKey) -> bool {
    exists|i: int| 0 <= i < es.len() && es[i].0 == key
}

pub open spec fn flow_index(es: Seq<(FlowKey, Seq<u8>)>, key: FlowKey) -> int {
    choose|i: int| 0 <= i < es.len() && es[i].0 == key
}

/// No two buffered flows share a key.
pub open spec fn tp_wf(es: Seq<(FlowKey, Seq<u8>)>) -> bool {
    forall|i: int, j: int| 0 <= i < j < es.len() ==> es[i].0 != es[j].0
}

impl TpReassembler {
    pub fn new() -> (r: TpReassembler)
        ensures
            tp_view(r) =~= Seq::<(FlowKey, Seq<u8>)>::empty(),
            tp_wf(tp_view(r)),
    {
        TpReassembler { entries: Vec::new() }
    }

    /// Index of the buffered flow with this key.
    fn find(&self, key: FlowKey) -> (r: Option<usize>)
        requires
            tp_wf(tp_view(*self)),
        ensures
            (match r {
                Some(i) => i < tp_view(*self).len() && tp_view(*self)[i as int].0 == key && i
                    as int == flow_index(tp_view(*self), key),
                None => !has_flow(tp_view(*self), key),
            }),
    {
        let ghost ev = tp_view(*self);
        let n = self.entries.len();
        let mut i: usize = 0;
        while i < n
            invariant
                i <= n,
                n == self.entries@.len(),
                ev == tp_view(*self),
                tp_wf(ev),
                forall|k: int| 0 <= k < i ==> ev[k].0 != key,
            decreases n - i,
        {
            proof {
                assert(ev[i as int] == (self.entries@[i as int].0, self.entries@[i as int].1@));
            }
            if self.entries[i].0 == key {
                proof {
                    let j = flow_index(ev, key);
                    assert(0 <= j < ev.len() && ev[j].0 == key);
                    if (i as int) < j {
                        assert(ev[i as int].0 != ev[j].0);
                    }
                    if j < (i as int) {
                        assert(ev[j].0 != ev[i as int].0);
                    }
                }
                return Some(i);
            }
            i += 1;
        }
        None
    }

    /// Feeds one TP segment: in-order segments accumulate per flow and the
    /// terminal segment (cleared "more" flag) releases the whole payload.
    /// A segment that does not continue its buffer -- a terminal with no
    /// predecessor, or an offset that skips bytes -- drops the flow's
    /// buffer and returns nothing, and the pipeline goes on.
    pub fn push_segment(&mut self, key: FlowKey, offset: usize, more: bool, data: &Vec<u8>) -> (r:
        Option<Vec<u8>>)
        requires
            tp_wf(tp_view(*old(self))),
        ensures
            tp_wf(tp_view(*final(self))),
            ({
                let es = tp_view(*old(self));
                let es2 = tp_view(*final(self));
                if !has_flow(es, key) {
                    if offset == 0 && more {
                        es2 == es.push((key, data@)) && r is None
                    } else if offset == 0 && !more {
                        es2 == es && (r matches Some(v) && v@ == data@)
                    } else {
                        es2 == es && r is None
                    }
                } else {
                    let i = flow_index(es, key);
                    let buf = es[i].1;
                    if buf.len() == offset {
                        if more {
                            es2 == es.update(i, (key, buf + data@)) && r is None
                        } else {
                            es2 == es.remove(i) && (r matches Some(v) && v@ == buf + data@)
                        }
                    } else {
                        es2 == es.remove(i) && r is None
                    }
                }
            }),
    {
        let ghost es = tp_view(*self);
        match self.find(key) {
            None => {
                if offset == 0 && more {
                    let mut buf: Vec<u8> = Vec::new();
                    append_bytes(&mut buf, data);
                    self.entries.push((key, buf));
                    proof {
                        assert(tp_view(*self) =~= es.push((key, data@)));
                        assert(tp_wf(tp_view(*self)));
                    }
                    None
                } else if offset == 0 && !more {
                    let mut whole: Vec<u8> = Vec::new();
                    append_bytes(&mut whole, data);
                    proof {
                        assert(whole@ =~= data@);
                    }
                    Some(whole)
                } else {
                    None
                }
            },
            Some(i) => {
                let buf_len = self.entries[i].1.len();
                if buf_len == offset {
                    if more {
                        let ghost old_entries = self.entries@;
                        append_bytes_at(&mut self.entries, i, data);
                        proof {
                            assert(tp_view(*self) =~= es.update(
                                i as int,
                                (key, es[i as int].1 + data@),
                            ));
                            assert(tp_wf(tp_view(*self)));
                        }
                        None
                    } else {
                        let (_, mut whole) = self.entries.remove(i);
                        append_bytes(&mut whole, data);
                        proof {
                            assert(tp_view(*self) =~= es.remove(i as int));
                            assert(tp_wf(tp_view(*self)));
                            assert(whole@ =~= es[i as int].1 + data@);
                        }
                        Some(whole)
                    }
                } else {
                    let _ = self.entries.remove(i);
                    proof {
                        assert(tp_view(*self) =~= es.remove(i as int));
                        assert(tp_wf(tp_view(*self)));
                    }
                    None
                }
            },
        }
    }
}

/// Appends all of `data` to `out`.
fn append_bytes(out: &mut Vec<u8>, data: &Vec<u8>)
    ensures
        final(out)@ == old(out)@ + data@,
{
    let n = data.len();
    let mut i: usize = 0;
    while i < n
        invariant
            i <= n,
            n == data@.len(),
            out@ =~= old(out)@ + data@.subrange(0, i as int),
        decreases n - i,
    {
        out.push(data[i]);
        i += 1;
    }
    assert(final(out)@ =~= old(out)@ + data@);
}

/// Appends all of `data` to the buffer of entry `i`.
fn append_bytes_at(entries: &mut Vec<(FlowKey, Vec<u8>)>, i: usize, data: &Vec<u8>)
    requires
        i < old(entries)@.len(),
    ensures
        final(entries)@.len() == old(entries)@.len(),
        final(entries)@[i as int].0 == old(entries)@[i as int].0,
        final(entries)@[i as int].1@ == old(entries)@[i as int].1@ + data@,
        forall|k: int|
            0 <= k < old(entries)@.len() && k != i ==> final(entries)@[k] == old(entries)@[k],
{
    append_bytes(&mut entries[i].1, data);
}

/// Per-connection accumulator that re-frames a TCP byte stream into whole
/// SOME/IP messages using the embedded length field.
pub struct TcpReassembler {
    pub conns: Vec<(ConnKey, Vec<u8>)>,
}

pub open spec fn tcp_view(t: TcpReassembler) -> Seq<(ConnKey, Seq<u8>)> {
    t.conns@.map_values(|e: (ConnKey, Vec<u8>)| (e.0, e.1@))
}

pub open spec fn has_conn(es: Seq<(ConnKey, Seq<u8>)>, key: ConnKey) -> bool {
    exists|i: int| 0 <= i < es.len() && es[i].0 == key
}

pub open spec fn conn_index(es: Seq<(ConnKey, Seq<u8>)>, key: ConnKey) -> int {
    choose|i: int| 0 <= i < es.len() && es[i].0 == key
}

pub open spec fn tcp_wf(es: Seq<(ConnKey, Seq<u8>)>) -> bool {
    forall|i: int, j: int| 0 <= i < j < es.len() ==> es[i].0 != es[j].0
}

/// The buffered bytes of `key`, empty when none are buffered.
pub open spec fn conn_buf(es: Seq<(ConnKey, Seq<u8>)>, key: ConnKey) -> Seq<u8> {
    if has_conn(es, key) {
        es[conn_index(es, key)].1
    } else {
        Seq::empty()
    }
}

impl TcpReassembler {
    pub fn new() -> (r: TcpReassembler)
        ensures
            tcp_view(r) =~= Seq::<(ConnKey, Seq<u8>)>::empty(),
            tcp_wf(tcp_view(r)),
    {
        TcpReassembler { conns: Vec::new() }
    }

    fn find(&self, key: ConnKey) -> (r: Option<usize>)
        requires
            tcp_wf(tcp_view(*self)),
        ensures
            (match r {
                Some(i) => i < tcp_view(*self).len() && tcp_view(*self)[i as int].0 == key && i
                    as int == conn_index(tcp_view(*self), key),
                None => !has_conn(tcp_view(*self), key),
            }),
    {
        let ghost ev = tcp_view(*self);
        let n = self.conns.len();
        let mut i: usize = 0;
        while i < n
            invariant
                i <= n,
                n == self.conns@.len(),
                ev == tcp_view(*self),
                tcp_wf(ev),
                forall|k: int| 0 <= k < i ==> ev[k].0 != key,
            decreases n - i,
        {
            proof {
                assert(ev[i as int] == (self.conns@[i as int].0, self.conns@[i as int].1@));
            }
            if self.conns[i].0 == key {
                proof {
                    let j = conn_index(ev, key);
                    assert(0 <= j < ev.len() && ev[j].0 == key);
                    if (i as int) < j {
                        assert(ev[i as int].0 != ev[j].0);
                    }
                    if j < (i as int) {
                        assert(ev[j].0 != ev[i as int].0);
                    }
                }
                return Some(i);
            }
            i += 1;
        }
        None
    }

    /// Feeds one TCP segment's payload: the bytes join the connection's
    /// buffer, every whole message at the front of the buffer comes out in
    /// order, and the incomplete tail stays buffered.
    pub fn push_bytes(&mut self, key: ConnKey, data: &Vec<u8>) -> (r: Vec<Vec<u8>>)
        requires
            tcp_wf(tcp_view(*old(self))),
        ensures
            tcp_wf(tcp_view(*final(self))),
            ({
                let combined = conn_buf(tcp_view(*old(self)), key) + data@;
                let stop = spec_pdu_stop(combined, 0);
                &&& r@.map_values(|v: Vec<u8>| v@) == spec_pdu_ranges(combined, 0).map_values(
                    |rg: (int, int)| combined.subrange(rg.0, rg.1),
                )
                &&& conn_buf(tcp_view(*final(self)), key) == combined.skip(stop)
            }),
    {
        let ghost es = tcp_view(*self);
        let idx: usize = match self.find(key) {
            Some(i) => {
                append_bytes_at_conn(&mut self.conns, i, data);
                proof {
                    assert(tcp_view(*self) =~= es.update(
                        i as int,
                        (key, es[i as int].1 + data@),
                    ));
                }
                i
            },
            None => {
                let mut buf: Vec<u8> = Vec::new();
                append_bytes(&mut buf, data);
                self.conns.push((key, buf));
                proof {
                    assert(tcp_view(*self) =~= es.push((key, data@)));
                    assert(conn_buf(es, key) =~= Seq::<u8>::empty());
                    assert(Seq::<u8>::empty() + data@ =~= data@);
                }
                self.conns.len() - 1
            },
        };
        let ghost es1 = tcp_view(*self);
        let ghost combined = conn_buf(es, key) + data@;
        proof {
            assert(tcp_wf(es1));
            assert(es1[idx as int].0 == key && es1[idx as int].1 == combined);
        }
        let (frames, rest) = extract_frames(&self.conns[idx].1);
        proof {
            assert(self.conns@[idx as int].1@ == combined);
        }
        set_conn_buf(&mut self.conns, idx, rest);
        proof {
            assert(tcp_view(*self) =~= es1.update(idx as int, (key, combined.skip(
                spec_pdu_stop(combined, 0),
            ))));
            assert(tcp_wf(tcp_view(*self)));
            let es2 = tcp_view(*self);
            assert(has_conn(es2, key)) by {
                assert(es2[idx as int].0 == key);
            }
            let j = conn_index(es2, key);
            assert(0 <= j < es2.len() && es2[j].0 == key);
            if (idx as int) < j {
                assert(es2[idx as int].0 != es2[j].0);
            }
            if j < (idx as int) {
                assert(es2[j].0 != es2[idx as int].0);
            }
            assert(conn_buf(es2, key) == combined.skip(spec_pdu_stop(combined, 0)));
        }
        frames
    }
}

fn append_bytes_at_conn(entries: &mut Vec<(ConnKey, Vec<u8>)>, i: usize, data: &Vec<u8>)
    requires
        i < old(entries)@.len(),
    ensures
        final(entries)@.len() == old(entries)@.len(),
        final(entries)@[i as int].0 == old(entries)@[i as int].0,
        final(entries)@[i as int].1@ == old(entries)@[i as int].1@ + data@,
        forall|k: int|
            0 <= k < old(entries)@.len() && k != i ==> final(entries)@[k] == old(entries)@[k],
{
    append_bytes(&mut entries[i].1, data);
}

/// Replaces the buffer of connection `i`.
fn set_conn_buf(entries: &mut Vec<(ConnKey, Vec<u8>)>, i: usize, buf: Vec<u8>)
    requires
        i < old(entries)@.len(),
    ensures
        final(entries)@.len() == old(entries)@.len(),
        final(entries)@[i as int].0 == old(entries)@[i as int].0,
        final(entries)@[i as int].1@ == buf@,
        forall|k: int|
            0 <= k < old(entries)@.len() && k != i ==> final(entries)@[k] == old(entries)@[k],
{
    entries[i].1 = buf;
}

/// Splits every whole message off the front of `buf`, returning the raw
/// frames in order and the unconsumed tail.
fn extract_frames(buf: &Vec<u8>) -> (r: (Vec<Vec<u8>>, Vec<u8>))
    ensures
        r.0@.map_values(|v: Vec<u8>| v@) == spec_pdu_ranges(buf@, 0).map_values(
            |rg: (int, int)| buf@.subrange(rg.0, rg.1),
        ),
        r.1@ == buf@.skip(spec_pdu_stop(buf@, 0)),
{
    let n = buf.len();
    let mut out: Vec<Vec<u8>> = Vec::new();
    let mut pos: usize = 0;
    let ghost mut done: Seq<(int, int)> = Seq::empty();
    proof {
        assert(out@.map_values(|v: Vec<u8>| v@) =~= Seq::<Seq<u8>>::empty());
        assert(Seq::<(int, int)>::empty() + spec_pdu_ranges(buf@, 0) =~= spec_pdu_ranges(
            buf@,
            0,
        ));
    }
    loop
        invariant_except_break
            pos <= n,
            n == buf@.len(),
            spec_pdu_ranges(buf@, 0) == done + spec_pdu_ranges(buf@, pos as int),
            out@.map_values(|v: Vec<u8>| v@) == done.map_values(
                |rg: (int, int)| buf@.subrange(rg.0, rg.1),
            ),
            spec_pdu_stop(buf@, 0) == spec_pdu_stop(buf@, pos as int),
        ensures
            pos <= n,
            n == buf@.len(),
            done == spec_pdu_ranges(buf@, 0),
            out@.map_values(|v: Vec<u8>| v@) == done.map_values(
                |rg: (int, int)| buf@.subrange(rg.0, rg.1),
            ),
            spec_pdu_stop(buf@, 0) == pos as int,
        decreases n - pos,
    {
        let h = match crate::demux::parse_someip_header(buf, pos) {
            Some(h) => h,
            None => {
                proof {
                    assert(!valid_someip_at(buf@, pos as int));
                    assert(spec_pdu_ranges(buf@, pos as int) =~= Seq::<(int, int)>::empty());
                    assert(done + Seq::<(int, int)>::empty() =~= done);
                }
                break ;
            },
        };
        proof {
            crate::wire::lemma_pow256_values();
            crate::wire::lemma_be_val_bound(buf@.subrange(pos + 4, pos + 8));
        }
        if h.length < 8 || (h.length - 8) as usize > n - (pos + 16) {
            proof {
                assert(!valid_someip_at(buf@, pos as int));
                assert(spec_pdu_ranges(buf@, pos as int) =~= Seq::<(int, int)>::empty());
                assert(done + Seq::<(int, int)>::empty() =~= done);
            }
            break ;
        }
        let end: usize = pos + 16 + (h.length - 8) as usize;
        proof {
            assert(valid_someip_at(buf@, pos as int));
            assert(someip_end(buf@, pos as int) == end as int);
        }
        let mut frame: Vec<u8> = Vec::new();
        let mut q: usize = pos;
        while q < end
            invariant
                pos <= q <= end,
                end <= n,
                n == buf@.len(),
                frame@ =~= buf@.subrange(pos as int, q as int),
            decreases end - q,
        {
            frame.push(buf[q]);
            q += 1;
        }
        proof {
            assert(frame@ =~= buf@.subrange(pos as int, end as int));
        }
        let ghost old_out = out@;
        let ghost old_pos = pos as int;
        let ghost old_done = done;
        let ghost framev = frame@;
        out.push(frame);
        proof {
            assert(spec_pdu_ranges(buf@, old_pos) == seq![(old_pos, end as int)]
                + spec_pdu_ranges(buf@, end as int));
            done = old_done.push((old_pos, end as int));
            assert(spec_pdu_ranges(buf@, 0) =~= done + spec_pdu_ranges(buf@, end as int)) by {
                assert(spec_pdu_ranges(buf@, 0) == old_done + (seq![(old_pos, end as int)]
                    + spec_pdu_ranges(buf@, end as int)));
            }
            let lhs = out@.map_values(|v: Vec<u8>| v@);
            let rhs = done.map_values(|rg: (int, int)| buf@.subrange(rg.0, rg.1));
            assert(out@.len() == old_out.len() + 1);
            assert(done.len() == old_done.len() + 1);
            assert(old_out.len() == old_done.len()) by {
                assert(old_out.map_values(|v: Vec<u8>| v@).len() == old_done.map_values(
                    |rg: (int, int)| buf@.subrange(rg.0, rg.1),
                ).len());
            }
            assert(lhs.len() == rhs.len());
            assert forall|i: int| 0 <= i < lhs.len() implies lhs[i] == rhs[i] by {
                if i < old_out.len() {
                    assert(out@[i] == old_out[i]);
                    assert(done[i] == old_done[i]);
                    assert(old_out.map_values(|v: Vec<u8>| v@)[i] == old_done.map_values(
                        |rg: (int, int)| buf@.subrange(rg.0, rg.1),
                    )[i]);
                } else {
                    assert(out@[i]@ == framev);
                    assert(done[i] == (old_pos, end as int));
                }
            }
            assert(lhs =~= rhs);
        }
        pos = end;
    }
    let mut rest: Vec<u8> = Vec::new();
    let mut q: usize = pos;
    while q < n
        invariant
            pos <= q <= n,
            n == buf@.len(),
            rest@ =~= buf@.subrange(pos as int, q as int),
        decreases n - q,
    {
        rest.push(buf[q]);
        q += 1;
    }
    proof {
        assert(rest@ =~= buf@.skip(pos as int));
    }
    (out, rest)
}

} // verus!
