//! Assembly of a scan report from completed probes.  Probing runs outside
//! this crate (it is network I/O); each finished probe is a record of which
//! host and port was tried and what came back.  The report is a function of
//! the set of records alone — the order in which concurrent probes complete
//! cannot change it — and preserves the hosts' expansion order.

use vstd::prelude::*;

verus! {

broadcast use vstd::seq_lib::group_to_multiset_ensures;

/// The outcome of probing one port of one host: `banner` is `Some` exactly
/// when the port accepted a connection, and then holds the identity the
/// banner grabber derived.
pub struct ProbeRecord {
    pub host: usize,
    pub port: u16,
    pub banner: Option<String>,
}

pub open spec fn rec_key(r: ProbeRecord) -> (int, u16) {
    (r.host as int, r.port)
}

pub open spec fn rec_out(r: ProbeRecord) -> Option<Seq<char>> {
    match r.banner {
        Some(b) => Some(b@),
        None => None,
    }
}

pub open spec fn rec_view(r: ProbeRecord) -> (int, u16, Option<Seq<char>>) {
    (r.host as int, r.port, rec_out(r))
}

/// No two records concern the same host and port.
pub open spec fn unique_keys(rs: Seq<ProbeRecord>) -> bool {
    forall|i: int, j: int| 0 <= i < j < rs.len() ==> rec_key(rs[i]) != rec_key(rs[j])
}

/// The outcome map the records denote.
pub open spec fn records_map(rs: Seq<ProbeRecord>) -> Map<(int, u16), Option<Seq<char>>>
    decreases rs.len(),
{
    if rs.len() == 0 {
        Map::empty()
    } else {
        records_map(rs.drop_last()).insert(rec_key(rs.last()), rec_out(rs.last()))
    }
}

pub proof fn lemma_records_map_props(rs: Seq<ProbeRecord>)
    requires
        unique_keys(rs),
    ensures
        forall|k: int|
            0 <= k < rs.len() ==> records_map(rs).dom().contains(rec_key(#[trigger] rs[k]))
                && records_map(rs)[rec_key(rs[k])] == rec_out(rs[k]),
        forall|key: (int, u16)|
            records_map(rs).dom().contains(key) ==> exists|k: int|
                0 <= k < rs.len() && rec_key(#[trigger] rs[k]) == key,
    decreases rs.len(),
{
    if rs.len() > 0 {
        let rs0 = rs.drop_last();
        assert(unique_keys(rs0)) by {
            assert(forall|i: int| 0 <= i < rs0.len() ==> rs0[i] == rs[i]);
        }
        lemma_records_map_props(rs0);
        assert(forall|i: int| 0 <= i < rs0.len() ==> rs0[i] == rs[i]);
        assert forall|k: int| 0 <= k < rs.len() implies records_map(rs).dom().contains(
            rec_key(#[trigger] rs[k]),
        ) && records_map(rs)[rec_key(rs[k])] == rec_out(rs[k]) by {
            if k < rs.len() - 1 {
                assert(rec_key(rs[k]) != rec_key(rs.last()));
            }
        }
        assert forall|key: (int, u16)|
            records_map(rs).dom().contains(key) implies exists|k: int|
            0 <= k < rs.len() && rec_key(#[trigger] rs[k]) == key by {
            if key != rec_key(rs.last()) {
                let k0 = choose|k0: int|
                    0 <= k0 < rs0.len() && rec_key(#[trigger] rs0[k0]) == key;
                assert(rec_key(rs[k0]) == key);
            } else {
                assert(rec_key(rs[rs.len() - 1]) == key);
            }
        }
    }
}

/// The ports of host `h` that an outcome map reports open, with their banners.
pub open spec fn open_ports_of(m: Map<(int, u16), Option<Seq<char>>>, h: int) -> Map<
    u16,
    Seq<char>,
> {
    Map::new(
        |p: u16| m.dom().contains((h, p)) && m[(h, p)] is Some,
        |p: u16| m[(h, p)]->Some_0,
    )
}

/// The report entries for the hosts from index `h0` on, in host order: one
/// entry per host with at least one open port, none otherwise.
pub open spec fn report_entries(
    hosts: Seq<Seq<char>>,
    m: Map<(int, u16), Option<Seq<char>>>,
    h0: int,
) -> Seq<(Seq<char>, Map<u16, Seq<char>>)>
    decreases hosts.len(),
{
    if hosts.len() == 0 {
        Seq::empty()
    } else {
        let op = open_ports_of(m, h0);
        let rest = report_entries(hosts.drop_first(), m, h0 + 1);
        if exists|p: u16| op.dom().contains(p) {
            seq![(hosts[0], op)] + rest
        } else {
            rest
        }
    }
}

/// The whole report an outcome map denotes.
pub open spec fn report_spec(
    hosts: Seq<Seq<char>>,
    m: Map<(int, u16), Option<Seq<char>>>,
) -> Seq<(Seq<char>, Map<u16, Seq<char>>)> {
    report_entries(hosts, m, 0)
}

/// Whether some element of `s` carries port `q` with banner text `v`.
pub open spec fn pair_in(s: Seq<(u16, String)>, q: u16, v: Seq<char>) -> bool {
    exists|i: int| 0 <= i < s.len() && (#[trigger] s[i]).0 == q && s[i].1@ == v
}

pub open spec fn sorted_strict(s: Seq<(u16, String)>) -> bool {
    forall|i: int, j: int| 0 <= i < j < s.len() ==> s[i].0 < s[j].0
}

/// The port-to-banner mapping a list of pairs denotes.
pub open spec fn pairs_map(s: Seq<(u16, String)>) -> Map<u16, Seq<char>>
    decreases s.len(),
{
    if s.len() == 0 {
        Map::empty()
    } else {
        pairs_map(s.drop_last()).insert(s.last().0, s.last().1@)
    }
}

pub proof fn lemma_pairs_map_props(s: Seq<(u16, String)>)
    requires
        forall|i: int, j: int| 0 <= i < j < s.len() ==> (#[trigger] s[i]).0 != (#[trigger] s[j]).0,
    ensures
        forall|i: int|
            0 <= i < s.len() ==> pairs_map(s).dom().contains((#[trigger] s[i]).0)
                && pairs_map(s)[s[i].0] == s[i].1@,
        forall|q: u16|
            pairs_map(s).dom().contains(q) ==> exists|i: int|
                0 <= i < s.len() && (#[trigger] s[i]).0 == q,
    decreases s.len(),
{
    if s.len() > 0 {
        let s0 = s.drop_last();
        assert(forall|i: int| 0 <= i < s0.len() ==> s0[i] == s[i]);
        lemma_pairs_map_props(s0);
        assert forall|i: int| 0 <= i < s.len() implies pairs_map(s).dom().contains(
            (#[trigger] s[i]).0,
        ) && pairs_map(s)[s[i].0] == s[i].1@ by {
            if i < s.len() - 1 {
                assert(s0[i] == s[i]);
                assert(s[i].0 != s.last().0);
            }
        }
        assert forall|q: u16| pairs_map(s).dom().contains(q) implies exists|i: int|
            0 <= i < s.len() && (#[trigger] s[i]).0 == q by {
            if q != s.last().0 {
                assert(pairs_map(s0).dom().contains(q));
                let i0 = choose|i0: int| 0 <= i0 < s0.len() && (#[trigger] s0[i0]).0 == q;
                assert(s[i0].0 == q);
            } else {
                assert(s[s.len() - 1].0 == q);
            }
        }
    }
}

/// One host of the report: its address and, per open port, the banner.
pub struct HostResult {
    pub address: String,
    pub ports: Vec<(u16, String)>,
}

impl HostResult {
    /// The port-to-banner mapping this result reports.
    pub open spec fn ports_map(self) -> Map<u16, Seq<char>> {
        pairs_map(self.ports@)
    }

    /// The abstract content of this result.
    pub open spec fn entry(self) -> (Seq<char>, Map<u16, Seq<char>>) {
        (self.address@, self.ports_map())
    }

    /// The ports are listed in strictly ascending order, so each port at
    /// most once.
    pub open spec fn wf(self) -> bool {
        sorted_strict(self.ports@)
    }
}

/// Places a new port among `ports`, keeping them strictly sorted.
fn insert_sorted(ports: &mut Vec<(u16, String)>, p: u16, b: String)
    requires
        sorted_strict(old(ports)@),
        forall|i: int| 0 <= i < old(ports)@.len() ==> (#[trigger] old(ports)@[i]).0 != p,
    ensures
        final(ports)@.len() == old(ports)@.len() + 1,
        sorted_strict(final(ports)@),
        forall|q: u16, v: Seq<char>|
            #[trigger] pair_in(final(ports)@, q, v) <==> (pair_in(old(ports)@, q, v) || (q == p
                && v == b@)),
{
    let mut idx: usize = 0;
    while idx < ports.len() && ports[idx].0 < p
        invariant
            idx <= ports@.len(),
            ports@ == old(ports)@,
            forall|i: int| 0 <= i < idx ==> (#[trigger] ports@[i]).0 < p,
        decreases ports@.len() - idx,
    {
        idx = idx + 1;
    }
    proof {
        assert(forall|i: int|
            idx <= i < ports@.len() ==> (#[trigger] ports@[i]).0 > p) by {
            if idx < ports@.len() {
                assert(ports@[idx as int].0 >= p);
                assert(ports@[idx as int].0 != p);
            }
        }
        ports@.insert_ensures(idx as int, (p, b));
    }
    ports.insert(idx, (p, b));
    proof {
        let s0 = old(ports)@;
        let s1 = ports@;
        assert(s1 == s0.insert(idx as int, (p, b)));
        assert(s1[idx as int] == (p, b));
        assert forall|q: u16, v: Seq<char>| #[trigger] pair_in(s1, q, v) implies (pair_in(
            s0,
            q,
            v,
        ) || (q == p && v == b@)) by {
            let i = choose|i: int| 0 <= i < s1.len() && (#[trigger] s1[i]).0 == q && s1[i].1@ == v;
            if i < idx {
                assert(s0[i].0 == q && s0[i].1@ == v);
            } else if i > idx {
                assert(s1[i] == s0[i - 1]);
                assert(s0[i - 1].0 == q && s0[i - 1].1@ == v);
            }
        }
        assert forall|q: u16, v: Seq<char>|
            (pair_in(s0, q, v) || (q == p && v == b@)) implies #[trigger] pair_in(s1, q, v) by {
            if pair_in(s0, q, v) {
                let i = choose|i: int|
                    0 <= i < s0.len() && (#[trigger] s0[i]).0 == q && s0[i].1@ == v;
                if i < idx {
                    assert(s1[i] == s0[i]);
                    assert(s1[i].0 == q && s1[i].1@ == v);
                } else {
                    assert(s1[i + 1] == s0[i]);
                    assert(s1[i + 1].0 == q && s1[i + 1].1@ == v);
                }
            } else {
                assert(s1[idx as int].0 == p && s1[idx as int].1@ == b@);
            }
        }
        assert forall|i: int, j: int| 0 <= i < j < s1.len() implies s1[i].0 < s1[j].0 by {
            let si = if i < idx {
                s0[i].0
            } else if i == idx {
                p
            } else {
                s0[i - 1].0
            };
            assert(s1[i].0 == si);
            let sj = if j < idx {
                s0[j].0
            } else if j == idx {
                p
            } else {
                s0[j - 1].0
            };
            assert(s1[j].0 == sj);
        }
    }
}

/// Builds the scan report from the hosts in expansion order, their
/// reachability, and the completed probe records, in whatever order the
/// probes finished.  Only reachable hosts were probed; no host-port pair was
/// probed twice.  The result is exactly the report the records' outcome map
/// denotes: hosts keep their order, a host appears exactly when one of its
/// ports accepted, and each entry maps each open port to its banner.
pub fn build_report(hosts: &Vec<String>, reach: &Vec<bool>, records: &Vec<ProbeRecord>) -> (report:
    Vec<HostResult>)
    requires
        reach@.len() == hosts@.len(),
        forall|k: int|
            0 <= k < records@.len() ==> (#[trigger] records@[k]).host < hosts@.len()
                && reach@[records@[k].host as int],
        unique_keys(records@),
    ensures
        report@.map_values(|hr: HostResult| hr.entry()) == report_spec(
            hosts@.map_values(|s: String| s@),
            records_map(records@),
        ),
        forall|i: int| 0 <= i < report@.len() ==> (#[trigger] report@[i]).wf(),
{
    let ghost hv = hosts@.map_values(|s: String| s@);
    let ghost m = records_map(records@);
    proof {
        lemma_records_map_props(records@);
        assert(hv.skip(0) =~= hv);
        assert(report_entries(hv, m, 0) =~= Seq::<(Seq<char>, Map<u16, Seq<char>>)>::empty()
            + report_entries(hv, m, 0));
    }
    let mut report: Vec<HostResult> = Vec::new();
    let mut h: usize = 0;
    while h < hosts.len()
        invariant
            hv == hosts@.map_values(|s: String| s@),
            m == records_map(records@),
            reach@.len() == hosts@.len(),
            forall|k: int|
                0 <= k < records@.len() ==> (#[trigger] records@[k]).host < hosts@.len()
                    && reach@[records@[k].host as int],
            unique_keys(records@),
            forall|k: int|
                0 <= k < records@.len() ==> m.dom().contains(rec_key(#[trigger] records@[k]))
                    && m[rec_key(records@[k])] == rec_out(records@[k]),
            forall|key: (int, u16)|
                m.dom().contains(key) ==> exists|k: int|
                    0 <= k < records@.len() && rec_key(#[trigger] records@[k]) == key,
            h <= hosts@.len(),
            report@.map_values(|hr: HostResult| hr.entry()) + report_entries(
                hv.skip(h as int),
                m,
                h as int,
            ) == report_entries(hv, m, 0),
            forall|i: int| 0 <= i < report@.len() ==> (#[trigger] report@[i]).wf(),
        decreases hosts@.len() - h,
    {
        proof {
            assert(hv.skip(h as int).drop_first() =~= hv.skip(h + 1));
            assert(hv.skip(h as int)[0] == hv[h as int]);
        }
        let ghost op = open_ports_of(m, h as int);
        if reach[h] {
            let mut ports: Vec<(u16, String)> = Vec::new();
            let mut k: usize = 0;
            while k < records.len()
                invariant
                    m == records_map(records@),
                    h < hosts@.len(),
                    unique_keys(records@),
                    forall|kk: int|
                        0 <= kk < records@.len() ==> m.dom().contains(
                            rec_key(#[trigger] records@[kk]),
                        ) && m[rec_key(records@[kk])] == rec_out(records@[kk]),
                    k <= records@.len(),
                    sorted_strict(ports@),
                    forall|q: u16, v: Seq<char>|
                        #[trigger] pair_in(ports@, q, v) <==> exists|j: int|
                            0 <= j < k && (#[trigger] records@[j]).host == h
                                && records@[j].port == q && rec_out(records@[j]) == Some(v),
                decreases records@.len() - k,
            {
                let r = &records[k];
                if r.host == h {
                    match &r.banner {
                        Some(b) => {
                            proof {
                                assert forall|i: int|
                                    0 <= i < ports@.len() implies (#[trigger] ports@[i]).0
                                    != r.port by {
                                    assert(pair_in(ports@, ports@[i].0, ports@[i].1@));
                                    let j = choose|j: int|
                                        0 <= j < k && (#[trigger] records@[j]).host == h
                                            && records@[j].port == ports@[i].0 && rec_out(
                                            records@[j],
                                        ) == Some(ports@[i].1@);
                                    assert(rec_key(records@[j]) != rec_key(records@[k as int]));
                                }
                            }
                            insert_sorted(&mut ports, r.port, b.clone());
                            proof {
                                assert forall|q: u16, v: Seq<char>|
                                    #[trigger] pair_in(ports@, q, v) implies exists|j: int|
                                    0 <= j < k + 1 && (#[trigger] records@[j]).host == h
                                        && records@[j].port == q && rec_out(records@[j]) == Some(
                                        v,
                                    ) by {
                                    if q == r.port && v == b@ {
                                        assert(records@[k as int].host == h && records@[k
                                            as int].port == q && rec_out(records@[k as int])
                                            == Some(v));
                                    } else {
                                        let j = choose|j: int|
                                            0 <= j < k && (#[trigger] records@[j]).host == h
                                                && records@[j].port == q && rec_out(records@[j])
                                                == Some(v);
                                        assert(0 <= j < k + 1 && records@[j].host == h
                                            && records@[j].port == q && rec_out(records@[j])
                                            == Some(v));
                                    }
                                }
                                assert forall|q: u16, v: Seq<char>|
                                    exists|j: int|
                                        0 <= j < k + 1 && (#[trigger] records@[j]).host == h
                                            && records@[j].port == q && rec_out(records@[j])
                                            == Some(v) implies #[trigger] pair_in(
                                    ports@,
                                    q,
                                    v,
                                ) by {
                                    let j = choose|j: int|
                                        0 <= j < k + 1 && (#[trigger] records@[j]).host == h
                                            && records@[j].port == q && rec_out(records@[j])
                                            == Some(v);
                                    if j == k {
                                        assert(q == r.port && v == b@);
                                    }
                                }
                            }
                        },
                        None => {
                            proof {
                                assert forall|q: u16, v: Seq<char>|
                                    #[trigger] pair_in(ports@, q, v) implies exists|j: int|
                                    0 <= j < k + 1 && (#[trigger] records@[j]).host == h
                                        && records@[j].port == q && rec_out(records@[j]) == Some(
                                        v,
                                    ) by {
                                    let j = choose|j: int|
                                        0 <= j < k && (#[trigger] records@[j]).host == h
                                            && records@[j].port == q && rec_out(records@[j])
                                            == Some(v);
                                    assert(0 <= j < k + 1 && records@[j].host == h && records@[
                                    j].port == q && rec_out(records@[j]) == Some(v));
                                }
                                assert forall|q: u16, v: Seq<char>|
                                    exists|j: int|
                                        0 <= j < k + 1 && (#[trigger] records@[j]).host == h
                                            && records@[j].port == q && rec_out(records@[j])
                                            == Some(v) implies #[trigger] pair_in(
                                    ports@,
                                    q,
                                    v,
                                ) by {
                                    let j = choose|j: int|
                                        0 <= j < k + 1 && (#[trigger] records@[j]).host == h
                                            && records@[j].port == q && rec_out(records@[j])
                                            == Some(v);
                                    assert(j != k);
                                }
                            }
                        },
                    }
                } else {
                    proof {
                        assert forall|q: u16, v: Seq<char>|
                            exists|j: int|
                                0 <= j < k + 1 && (#[trigger] records@[j]).host == h
                                    && records@[j].port == q && rec_out(records@[j]) == Some(
                                    v,
                                ) implies #[trigger] pair_in(ports@, q, v) by {
                            let j = choose|j: int|
                                0 <= j < k + 1 && (#[trigger] records@[j]).host == h
                                    && records@[j].port == q && rec_out(records@[j]) == Some(v);
                            assert(j != k);
                        }
                    }
                }
                k = k + 1;
            }
            proof {
                assert forall|i: int, j: int|
                    0 <= i < j < ports@.len() implies (#[trigger] ports@[i]).0
                    != (#[trigger] ports@[j]).0 by {}
                lemma_pairs_map_props(ports@);
                assert(pairs_map(ports@) =~~= op) by {
                    let pm = pairs_map(ports@);
                    assert forall|q: u16| #[trigger] pm.dom().contains(q) implies
                        op.dom().contains(q) && op[q] == pm[q] by {
                        assert(pm.dom().contains(q));
                        let i = choose|i: int|
                            0 <= i < ports@.len() && (#[trigger] ports@[i]).0 == q;
                        assert(pair_in(ports@, q, ports@[i].1@));
                        let j = choose|j: int|
                            0 <= j < records@.len() && (#[trigger] records@[j]).host == h
                                && records@[j].port == q && rec_out(records@[j]) == Some(
                                ports@[i].1@,
                            );
                        assert(rec_key(records@[j]) == (h as int, q));
                        assert(m[(h as int, q)] == Some(ports@[i].1@));
                    }
                    assert forall|q: u16| #[trigger] op.dom().contains(q) implies
                        pm.dom().contains(q) by {
                        let key = (h as int, q);
                        let j = choose|j: int|
                            0 <= j < records@.len() && rec_key(#[trigger] records@[j]) == key;
                        assert(rec_out(records@[j]) == m[key]);
                        assert(pair_in(ports@, q, m[key]->Some_0));
                        let i = choose|i: int|
                            0 <= i < ports@.len() && (#[trigger] ports@[i]).0 == q && ports@[i].1@
                                == m[key]->Some_0;
                    }
                    assert(forall|q: u16| pm.dom().contains(q) ==> op.dom().contains(q));
                    assert(forall|q: u16| op.dom().contains(q) ==> pm.dom().contains(q));
                    assert(pm.dom() =~= op.dom());
                    assert(forall|q: u16| pm.dom().contains(q) ==> pm[q] == op[q]);
                }
            }
            if ports.len() > 0 {
                proof {
                    assert(pairs_map(ports@).dom().contains(ports@[0].0));
                    assert(exists|p: u16| op.dom().contains(p));
                }
                let hr = HostResult { address: hosts[h].clone(), ports };
                let ghost acc = report@.map_values(|x: HostResult| x.entry());
                report.push(hr);
                proof {
                    assert(report_entries(hv.skip(h as int), m, h as int) == seq![
                        (hv[h as int], op),
                    ] + report_entries(hv.skip(h + 1), m, h + 1));
                    assert(report@.map_values(|x: HostResult| x.entry()) =~= acc.push(
                        (hv[h as int], op),
                    ));
                    assert(acc.push((hv[h as int], op)) + report_entries(hv.skip(h + 1), m, h + 1)
                        =~= acc + (seq![(hv[h as int], op)] + report_entries(
                        hv.skip(h + 1),
                        m,
                        h + 1,
                    )));
                }
            } else {
                proof {
                    if exists|p: u16| op.dom().contains(p) {
                        let q = choose|p: u16| op.dom().contains(p);
                        assert(pairs_map(ports@).dom().contains(q));
                        let i = choose|i: int|
                            0 <= i < ports@.len() && (#[trigger] ports@[i]).0 == q;
                        assert(false);
                    }
                    assert(report_entries(hv.skip(h as int), m, h as int) == report_entries(
                        hv.skip(h + 1),
                        m,
                        h + 1,
                    ));
                }
            }
        } else {
            proof {
                assert forall|p: u16| !op.dom().contains(p) by {
                    if m.dom().contains((h as int, p)) {
                        let k = choose|k: int|
                            0 <= k < records@.len() && rec_key(#[trigger] records@[k]) == (
                            h as int,
                            p,
                            );
                        assert(reach@[records@[k].host as int]);
                        assert(false);
                    }
                }
                if exists|p: u16| op.dom().contains(p) {
                    let q = choose|p: u16| op.dom().contains(p);
                    assert(false);
                }
                assert(report_entries(hv.skip(h as int), m, h as int) == report_entries(
                    hv.skip(h + 1),
                    m,
                    h + 1,
                ));
            }
        }
        h = h + 1;
    }
    proof {
        assert(hv.skip(hv.len() as int) =~= Seq::<Seq<char>>::empty());
        assert(report@.map_values(|hr: HostResult| hr.entry()) + Seq::<(
            Seq<char>,
            Map<u16, Seq<char>>,
        )>::empty() =~= report@.map_values(|hr: HostResult| hr.entry()));
    }
    report
}

/// The assembled report depends only on which probe outcomes arrived, never
/// on the order in which concurrent probes completed: any two record lists
/// with the same outcomes, each probing every pair at most once, denote the
/// same report.
pub proof fn lemma_report_order_independent(
    hosts: Seq<Seq<char>>,
    rs1: Seq<ProbeRecord>,
    rs2: Seq<ProbeRecord>,
)
    requires
        unique_keys(rs1),
        unique_keys(rs2),
        rs1.map_values(|r: ProbeRecord| rec_view(r)).to_multiset() == rs2.map_values(
            |r: ProbeRecord| rec_view(r),
        ).to_multiset(),
    ensures
        report_spec(hosts, records_map(rs1)) == report_spec(hosts, records_map(rs2)),
{
    let v1 = rs1.map_values(|r: ProbeRecord| rec_view(r));
    let v2 = rs2.map_values(|r: ProbeRecord| rec_view(r));
    lemma_records_map_props(rs1);
    lemma_records_map_props(rs2);
    let m1 = records_map(rs1);
    let m2 = records_map(rs2);
    assert forall|key: (int, u16)| m1.dom().contains(key) implies m2.dom().contains(key) && m2[key]
        == m1[key] by {
        let k1 = choose|k: int| 0 <= k < rs1.len() && rec_key(#[trigger] rs1[k]) == key;
        let w = rec_view(rs1[k1]);
        assert(v1[k1] == w);
        assert(v1.contains(w));
        assert(v2.to_multiset().count(w) > 0);
        assert(v2.contains(w));
        let k2 = choose|k: int| 0 <= k < v2.len() && v2[k] == w;
        assert(rec_view(rs2[k2]) == w);
        assert(rec_key(rs2[k2]) == key && rec_out(rs2[k2]) == rec_out(rs1[k1]));
    }
    assert forall|key: (int, u16)| m2.dom().contains(key) implies m1.dom().contains(key) by {
        let k2 = choose|k: int| 0 <= k < rs2.len() && rec_key(#[trigger] rs2[k]) == key;
        let w = rec_view(rs2[k2]);
        assert(v2[k2] == w);
        assert(v2.contains(w));
        assert(v1.to_multiset().count(w) > 0);
        assert(v1.contains(w));
        let k1 = choose|k: int| 0 <= k < v1.len() && v1[k] == w;
        assert(rec_view(rs1[k1]) == w);
        assert(rec_key(rs1[k1]) == key);
    }
    assert(m1 =~= m2);
}

/// A host none of whose probes came back open — in particular an
/// unreachable host, which is never probed — contributes no entry to the
/// report.
pub proof fn lemma_host_without_open_ports_absent(
    hosts: Seq<Seq<char>>,
    m: Map<(int, u16), Option<Seq<char>>>,
    h: int,
)
    requires
        0 <= h < hosts.len(),
        forall|p: u16| m.dom().contains((h, p)) ==> m[(h, p)] is None,
        forall|i: int, j: int| 0 <= i < j < hosts.len() ==> hosts[i] != hosts[j],
    ensures
        forall|e: (Seq<char>, Map<u16, Seq<char>>)|
            report_spec(hosts, m).contains(e) ==> e.0 != hosts[h],
{
    lemma_report_entries_membership(hosts, m, 0);
    assert forall|e: (Seq<char>, Map<u16, Seq<char>>)|
        report_spec(hosts, m).contains(e) implies e.0 != hosts[h] by {
        let j = choose|j: int| #[trigger] is_entry_of(hosts, m, 0, j, e);
        if e.0 == hosts[h] {
            assert(j == h);
            let p = choose|p: u16| open_ports_of(m, h).dom().contains(p);
            assert(false);
        }
    }
}

/// Entry `e` is what the report says of the host at index `j`: that host
/// has an open port, and `e` carries its address and open-port mapping.
pub open spec fn is_entry_of(
    hosts: Seq<Seq<char>>,
    m: Map<(int, u16), Option<Seq<char>>>,
    h0: int,
    j: int,
    e: (Seq<char>, Map<u16, Seq<char>>),
) -> bool {
    &&& 0 <= j < hosts.len()
    &&& exists|p: u16| #[trigger] open_ports_of(m, h0 + j).dom().contains(p)
    &&& e == (hosts[j], open_ports_of(m, h0 + j))
}

/// What the report holds: exactly the entries of the hosts with an open port.
pub proof fn lemma_report_entries_membership(
    hosts: Seq<Seq<char>>,
    m: Map<(int, u16), Option<Seq<char>>>,
    h0: int,
)
    ensures
        forall|e: (Seq<char>, Map<u16, Seq<char>>)|
            #[trigger] report_entries(hosts, m, h0).contains(e) <==> exists|j: int|
                #[trigger] is_entry_of(hosts, m, h0, j, e),
    decreases hosts.len(),
{
    if hosts.len() == 0 {
    } else {
        lemma_report_entries_membership(hosts.drop_first(), m, h0 + 1);
        let op = open_ports_of(m, h0);
        let rest = report_entries(hosts.drop_first(), m, h0 + 1);
        assert forall|e: (Seq<char>, Map<u16, Seq<char>>)|
            #[trigger] report_entries(hosts, m, h0).contains(e) implies exists|j: int|
            #[trigger] is_entry_of(hosts, m, h0, j, e) by {
            if exists|p: u16| op.dom().contains(p) {
                let full = seq![(hosts[0], op)] + rest;
                let i = choose|i: int| 0 <= i < full.len() && full[i] == e;
                if i == 0 {
                    assert(is_entry_of(hosts, m, h0, 0, e));
                } else {
                    assert(rest.contains(e)) by {
                        assert(rest[i - 1] == e);
                    }
                    let j = choose|j: int| #[trigger] is_entry_of(hosts.drop_first(), m, h0 + 1, j, e);
                    assert(hosts[j + 1] == hosts.drop_first()[j]);
                    assert(is_entry_of(hosts, m, h0, j + 1, e));
                }
            } else {
                assert(rest.contains(e));
                let j = choose|j: int| #[trigger] is_entry_of(hosts.drop_first(), m, h0 + 1, j, e);
                assert(hosts[j + 1] == hosts.drop_first()[j]);
                assert(is_entry_of(hosts, m, h0, j + 1, e));
            }
        }
        assert forall|e: (Seq<char>, Map<u16, Seq<char>>)|
            (exists|j: int| #[trigger] is_entry_of(hosts, m, h0, j, e)) implies #[trigger] report_entries(
            hosts,
            m,
            h0,
        ).contains(e) by {
            let j = choose|j: int| #[trigger] is_entry_of(hosts, m, h0, j, e);
            let full = report_entries(hosts, m, h0);
            if j == 0 {
                assert(full == seq![(hosts[0], op)] + rest);
                assert(full[0] == e);
            } else {
                assert(hosts.drop_first()[j - 1] == hosts[j]);
                assert(is_entry_of(hosts.drop_first(), m, h0 + 1, j - 1, e));
                assert(rest.contains(e));
                let i = choose|i: int| 0 <= i < rest.len() && rest[i] == e;
                if exists|p: u16| op.dom().contains(p) {
                    assert(full == seq![(hosts[0], op)] + rest);
                    assert(full[i + 1] == e);
                } else {
                    assert(full[i] == e);
                }
            }
        }
    }
}

/// With no open outcome anywhere — every probe refused, or no probe made at
/// all because no host was reachable — the report is empty.
pub proof fn lemma_all_closed_empty_report(
    hosts: Seq<Seq<char>>,
    m: Map<(int, u16), Option<Seq<char>>>,
)
    requires
        forall|key: (int, u16)| m.dom().contains(key) ==> m[key] is None,
    ensures
        report_spec(hosts, m) == Seq::<(Seq<char>, Map<u16, Seq<char>>)>::empty(),
{
    lemma_all_closed_empty_entries(hosts, m, 0);
}

proof fn lemma_all_closed_empty_entries(
    hosts: Seq<Seq<char>>,
    m: Map<(int, u16), Option<Seq<char>>>,
    h0: int,
)
    requires
        forall|key: (int, u16)| m.dom().contains(key) ==> m[key] is None,
    ensures
        report_entries(hosts, m, h0) == Seq::<(Seq<char>, Map<u16, Seq<char>>)>::empty(),
    decreases hosts.len(),
{
    if hosts.len() > 0 {
        lemma_all_closed_empty_entries(hosts.drop_first(), m, h0 + 1);
        if exists|p: u16| open_ports_of(m, h0).dom().contains(p) {
            let p = choose|p: u16| open_ports_of(m, h0).dom().contains(p);
            assert(false);
        }
    }
}

} // verus!
