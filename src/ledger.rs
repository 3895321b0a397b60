//! The proof ledger: proofs keyed by their code, and their consumption.

use vstd::prelude::*;
use crate::error::ProofError;

verus! {

/// A single-use, time-boxed code asserting that an employee belonged to a company.
pub struct Proof {
    pub code: String,
    pub company_id: u64,
    pub employee_id: u64,
    pub created_at: u64,
    pub expires_at: u64,
    pub is_used: bool,
}

impl Proof {
    /// An equal copy of the proof.
    pub fn duplicate(&self) -> (r: Proof)
        ensures
            r == *self,
    {
        Proof {
            code: self.code.clone(),
            company_id: self.company_id,
            employee_id: self.employee_id,
            created_at: self.created_at,
            expires_at: self.expires_at,
            is_used: self.is_used,
        }
    }
}

/// No two records share a code.
pub open spec fn codes_unique(ps: Seq<Proof>) -> bool {
    forall|i: int, j: int|
        0 <= i < ps.len() && 0 <= j < ps.len() && i != j ==> #[trigger] ps[i].code@
            != #[trigger] ps[j].code@
}

/// Some record holds `code`.
pub open spec fn has_code(ps: Seq<Proof>, code: Seq<char>) -> bool {
    exists|i: int| 0 <= i < ps.len() && ps[i].code@ == code
}

/// The position of the record that holds `code` (meaningful when `has_code`).
pub open spec fn position_of(ps: Seq<Proof>, code: Seq<char>) -> int {
    choose|i: int| 0 <= i < ps.len() && ps[i].code@ == code
}

/// What a verification of `code` at time `now` reports.
pub open spec fn consume_outcome(ps: Seq<Proof>, code: Seq<char>, now: u64) -> Result<
    (u64, u64),
    ProofError,
> {
    if !has_code(ps, code) {
        Err(ProofError::NotFound)
    } else {
        let p = ps[position_of(ps, code)];
        if now > p.expires_at {
            Err(ProofError::Expired)
        } else if p.is_used {
            Err(ProofError::AlreadyUsed)
        } else {
            Ok((p.company_id, p.employee_id))
        }
    }
}

/// The records after a verification of `code` at time `now`: only a
/// successful one changes anything, and only the `is_used` flag of that record.
pub open spec fn consume_records(ps: Seq<Proof>, code: Seq<char>, now: u64) -> Seq<Proof> {
    if consume_outcome(ps, code, now) is Ok {
        let i = position_of(ps, code);
        ps.update(i, Proof { is_used: true, ..ps[i] })
    } else {
        ps
    }
}

/// The proofs issued so far, never removed.
pub struct ProofLedger {
    proofs: Vec<Proof>,
}

impl ProofLedger {
    pub closed spec fn records(&self) -> Seq<Proof> {
        self.proofs@
    }

    pub open spec fn wf(&self) -> bool {
        codes_unique(self.records())
    }

    pub fn new() -> (r: Self)
        ensures
            r.records() == Seq::<Proof>::empty(),
            r.wf(),
    {
        ProofLedger { proofs: Vec::new() }
    }

    pub fn len(&self) -> (r: usize)
        ensures
            r == self.records().len(),
    {
        self.proofs.len()
    }

    /// Position of the record with `code`, if there is one.
    pub fn find(&self, code: &String) -> (r: Option<usize>)
        requires
            self.wf(),
        ensures
            r is None <==> !has_code(self.records(), code@),
            r matches Some(i) ==> i == position_of(self.records(), code@) && i
                < self.records().len(),
    {
        let mut i: usize = 0;
        while i < self.proofs.len()
            invariant
                self.wf(),
                i <= self.proofs@.len(),
                forall|k: int| 0 <= k < i ==> self.proofs@[k].code@ != code@,
            decreases self.proofs@.len() - i,
        {
            if self.proofs[i].code == *code {
                proof {
                    let ps = self.records();
                    assert(ps[i as int].code@ == code@);
                    assert(has_code(ps, code@));
                    let j = position_of(ps, code@);
                    assert(ps[j].code@ == code@);
                    assert(j == i as int);
                }
                return Some(i);
            }
            i = i + 1;
        }
        None
    }

    /// Whether a record holds `code`.
    pub fn contains_code(&self, code: &String) -> (r: bool)
        requires
            self.wf(),
        ensures
            r == has_code(self.records(), code@),
    {
        self.find(code).is_some()
    }

    /// Adds a record whose code is not yet in the ledger.
    pub fn insert(&mut self, proof: Proof)
        requires
            old(self).wf(),
            !has_code(old(self).records(), proof.code@),
        ensures
            final(self).wf(),
            final(self).records() == old(self).records().push(proof),
    {
        self.proofs.push(proof);
        proof {
            let ps = self.records();
            let n = old(self).records().len() as int;
            assert forall|i: int, j: int|
                0 <= i < ps.len() && 0 <= j < ps.len() && i != j implies ps[i].code@
                != ps[j].code@ by {
                if i == n {
                    assert(old(self).records()[j].code@ == ps[j].code@);
                } else if j == n {
                    assert(old(self).records()[i].code@ == ps[i].code@);
                }
            }
        }
    }

    /// Read-only lookup of the record with `code`.
    pub fn peek(&self, code: &String) -> (r: Result<Proof, ProofError>)
        requires
            self.wf(),
        ensures
            !has_code(self.records(), code@) ==> r == Err::<Proof, ProofError>(ProofError::NotFound),
            has_code(self.records(), code@) ==> r == Ok::<Proof, ProofError>(
                self.records()[position_of(self.records(), code@)],
            ),
    {
        match self.find(code) {
            None => Err(ProofError::NotFound),
            Some(i) => Ok(self.proofs[i].duplicate()),
        }
    }

    /// Checks `code` at time `now` and, when it is valid, marks it used, in
    /// one step: an absent code is `NotFound`, one past its expiry `Expired`
    /// (left untouched), one used before `AlreadyUsed`; otherwise the proof's
    /// company and employee.
    pub fn verify_and_consume(&mut self, code: &String, now: u64) -> (r: Result<
        (u64, u64),
        ProofError,
    >)
        requires
            old(self).wf(),
        ensures
            final(self).wf(),
            r == consume_outcome(old(self).records(), code@, now),
            final(self).records() == consume_records(old(self).records(), code@, now),
    {
        match self.find(code) {
            None => Err(ProofError::NotFound),
            Some(i) => {
                let p = &self.proofs[i];
                if now > p.expires_at {
                    Err(ProofError::Expired)
                } else if p.is_used {
                    Err(ProofError::AlreadyUsed)
                } else {
                    let used = Proof {
                        code: p.code.clone(),
                        company_id: p.company_id,
                        employee_id: p.employee_id,
                        created_at: p.created_at,
                        expires_at: p.expires_at,
                        is_used: true,
                    };
                    let r = (p.company_id, p.employee_id);
                    self.proofs.set(i, used);
                    proof {
                        let ps = self.records();
                        assert forall|a: int, b: int|
                            0 <= a < ps.len() && 0 <= b < ps.len() && a != b implies ps[a].code@
                            != ps[b].code@ by {
                            assert(ps[a].code@ == old(self).records()[a].code@);
                            assert(ps[b].code@ == old(self).records()[b].code@);
                        }
                    }
                    Ok(r)
                }
            },
        }
    }
}

/// Every code in the ledger is held by exactly one record: two positions
/// that hold the same code are the same position.
pub proof fn lemma_codes_unique(ledger: &ProofLedger, i: int, j: int)
    requires
        ledger.wf(),
        0 <= i < ledger.records().len(),
        0 <= j < ledger.records().len(),
        ledger.records()[i].code@ == ledger.records()[j].code@,
    ensures
        i == j,
{
}

/// A code is reported valid at most once: once a verification has succeeded,
/// any later verification of the same code before its expiry reports
/// `AlreadyUsed`.
pub proof fn lemma_consumed_once(ps: Seq<Proof>, code: Seq<char>, now1: u64, now2: u64)
    requires
        codes_unique(ps),
        consume_outcome(ps, code, now1) is Ok,
        now2 <= ps[position_of(ps, code)].expires_at,
    ensures
        consume_outcome(consume_records(ps, code, now1), code, now2) == Err::<
            (u64, u64),
            ProofError,
        >(ProofError::AlreadyUsed),
{
    let i = position_of(ps, code);
    let qs = consume_records(ps, code, now1);
    assert(qs[i].code@ == code);
    assert(has_code(qs, code));
    let j = position_of(qs, code);
    assert(qs[j].code@ == ps[j].code@);
}

/// Once a proof's expiry has passed, every later verification reports
/// `Expired`, whatever verifications came between and whatever its `is_used`.
pub proof fn lemma_expiry_final(
    ps: Seq<Proof>,
    code: Seq<char>,
    now1: u64,
    between: u64,
    now2: u64,
)
    requires
        codes_unique(ps),
        consume_outcome(ps, code, now1) == Err::<(u64, u64), ProofError>(ProofError::Expired),
        now1 <= now2,
    ensures
        consume_outcome(consume_records(ps, code, between), code, now2) == Err::<
            (u64, u64),
            ProofError,
        >(ProofError::Expired),
{
    let i = position_of(ps, code);
    let qs = consume_records(ps, code, between);
    assert(qs[i].code@ == code);
    assert(has_code(qs, code));
    let j = position_of(qs, code);
    assert(qs[j].code@ == ps[j].code@);
}

/// `b` is a later state of the ledger `a`: each record of `a` keeps its
/// place, code, company, employee and times, a used record stays used, and
/// new records come after the old ones.
pub open spec fn ledger_grows(a: Seq<Proof>, b: Seq<Proof>) -> bool {
    &&& a.len() <= b.len()
    &&& forall|i: int|
        0 <= i < a.len() ==> {
            &&& (#[trigger] b[i]).code@ == a[i].code@
            &&& b[i].company_id == a[i].company_id
            &&& b[i].employee_id == a[i].employee_id
            &&& b[i].created_at == a[i].created_at
            &&& b[i].expires_at == a[i].expires_at
            &&& (a[i].is_used ==> b[i].is_used)
        }
}

/// The outcomes of verifying `code` at each of the times `nows`, one after
/// the other.
pub open spec fn consume_outcomes(ps: Seq<Proof>, code: Seq<char>, nows: Seq<u64>) -> Seq<
    Result<(u64, u64), ProofError>,
>
    decreases nows.len(),
{
    if nows.len() == 0 {
        Seq::empty()
    } else {
        seq![consume_outcome(ps, code, nows[0])] + consume_outcomes(
            consume_records(ps, code, nows[0]),
            code,
            nows.drop_first(),
        )
    }
}

pub proof fn lemma_ledger_grows_refl(a: Seq<Proof>)
    ensures
        ledger_grows(a, a),
{
}

/// A later state of a later state is a later state.
pub proof fn lemma_ledger_grows_trans(a: Seq<Proof>, b: Seq<Proof>, c: Seq<Proof>)
    requires
        ledger_grows(a, b),
        ledger_grows(b, c),
    ensures
        ledger_grows(a, c),
{
    assert forall|i: int| 0 <= i < a.len() implies (#[trigger] c[i]).code@ == a[i].code@
        && c[i].company_id == a[i].company_id && c[i].employee_id == a[i].employee_id
        && c[i].created_at == a[i].created_at && c[i].expires_at == a[i].expires_at && (
        a[i].is_used ==> c[i].is_used) by {
        assert(b[i].code@ == a[i].code@);
        assert(c[i].code@ == b[i].code@);
    }
}

/// Appending a record, as an issuance does, gives a later state.
pub proof fn lemma_push_grows(ps: Seq<Proof>, p: Proof)
    ensures
        ledger_grows(ps, ps.push(p)),
{
    assert forall|i: int| 0 <= i < ps.len() implies (#[trigger] ps.push(p)[i]) == ps[i] by {}
}

/// A verification gives a later state.
pub proof fn lemma_consume_grows(ps: Seq<Proof>, code: Seq<char>, now: u64)
    ensures
        ledger_grows(ps, consume_records(ps, code, now)),
{
}

/// Codes are never recycled: a record added after state `a` holds a code
/// that no record of `a` holds, whatever was consumed or expired between.
pub proof fn lemma_codes_never_recycled(a: Seq<Proof>, b: Seq<Proof>, i: int, j: int)
    requires
        ledger_grows(a, b),
        codes_unique(b),
        0 <= i < a.len(),
        a.len() <= j < b.len(),
    ensures
        b[j].code@ != a[i].code@,
{
    assert(b[i].code@ == a[i].code@);
}

/// Once a proof has expired at `t0`, a verification at any time from `t0`
/// on, in any later state of the ledger, reports `Expired`.
pub proof fn lemma_expired_in_later_state(
    a: Seq<Proof>,
    b: Seq<Proof>,
    code: Seq<char>,
    t0: u64,
    t: u64,
)
    requires
        ledger_grows(a, b),
        codes_unique(a),
        codes_unique(b),
        consume_outcome(a, code, t0) == Err::<(u64, u64), ProofError>(ProofError::Expired),
        t0 <= t,
    ensures
        consume_outcome(b, code, t) == Err::<(u64, u64), ProofError>(ProofError::Expired),
{
    let i = position_of(a, code);
    assert(b[i].code@ == code);
    assert(has_code(b, code));
    let j = position_of(b, code);
    assert(b[j].code@ == b[i].code@);
}

/// A used proof, verified at any number of times before its expiry, reports
/// `AlreadyUsed` each time and stays as it is.
pub proof fn lemma_used_stays_used(ps: Seq<Proof>, code: Seq<char>, nows: Seq<u64>)
    requires
        codes_unique(ps),
        has_code(ps, code),
        ps[position_of(ps, code)].is_used,
        forall|k: int| 0 <= k < nows.len() ==> #[trigger] nows[k] <= ps[position_of(ps, code)].expires_at,
    ensures
        forall|k: int|
            0 <= k < nows.len() ==> #[trigger] consume_outcomes(ps, code, nows)[k] == Err::<
                (u64, u64),
                ProofError,
            >(ProofError::AlreadyUsed),
        consume_outcomes(ps, code, nows).len() == nows.len(),
    decreases nows.len(),
{
    if nows.len() > 0 {
        let rest = nows.drop_first();
        assert(consume_records(ps, code, nows[0]) == ps);
        assert forall|k: int| 0 <= k < rest.len() implies #[trigger] rest[k] <= ps[position_of(ps, code)].expires_at by {
            assert(rest[k] == nows[k + 1]);
        }
        lemma_used_stays_used(ps, code, rest);
        let outs = consume_outcomes(ps, code, nows);
        assert forall|k: int| 0 <= k < nows.len() implies #[trigger] outs[k] == Err::<
            (u64, u64),
            ProofError,
        >(ProofError::AlreadyUsed) by {
            if k > 0 {
                assert(outs[k] == consume_outcomes(ps, code, rest)[k - 1]);
            }
        }
    }
}

/// Exactly-once consumption: of any number of verifications of an unused
/// code before its expiry, the first reports the proof's company and
/// employee and every later one reports `AlreadyUsed`.
pub proof fn lemma_consumed_exactly_once(ps: Seq<Proof>, code: Seq<char>, nows: Seq<u64>)
    requires
        codes_unique(ps),
        has_code(ps, code),
        !ps[position_of(ps, code)].is_used,
        nows.len() >= 1,
        forall|k: int| 0 <= k < nows.len() ==> #[trigger] nows[k] <= ps[position_of(ps, code)].expires_at,
    ensures
        consume_outcomes(ps, code, nows).len() == nows.len(),
        consume_outcomes(ps, code, nows)[0] == Ok::<(u64, u64), ProofError>(
            (ps[position_of(ps, code)].company_id, ps[position_of(ps, code)].employee_id),
        ),
        forall|k: int|
            1 <= k < nows.len() ==> #[trigger] consume_outcomes(ps, code, nows)[k] == Err::<
                (u64, u64),
                ProofError,
            >(ProofError::AlreadyUsed),
{
    let i = position_of(ps, code);
    let qs = consume_records(ps, code, nows[0]);
    let rest = nows.drop_first();
    assert(nows[0] <= ps[i].expires_at);
    assert(qs[i].code@ == code);
    assert(has_code(qs, code));
    let j = position_of(qs, code);
    assert(qs[j].code@ == qs[i].code@);
    assert(j == i) by {
        if j != i {
            assert(ps[j].code@ == qs[j].code@);
        }
    }
    assert forall|a: int, b: int|
        0 <= a < qs.len() && 0 <= b < qs.len() && a != b implies #[trigger] qs[a].code@
        != #[trigger] qs[b].code@ by {
        assert(qs[a].code@ == ps[a].code@);
        assert(qs[b].code@ == ps[b].code@);
    }
    assert forall|k: int| 0 <= k < rest.len() implies #[trigger] rest[k] <= qs[position_of(qs, code)].expires_at by {
        assert(rest[k] == nows[k + 1]);
    }
    lemma_used_stays_used(qs, code, rest);
    let outs = consume_outcomes(ps, code, nows);
    assert forall|k: int| 1 <= k < nows.len() implies #[trigger] outs[k] == Err::<
        (u64, u64),
        ProofError,
    >(ProofError::AlreadyUsed) by {
        assert(outs[k] == consume_outcomes(qs, code, rest)[k - 1]);
    }
}

} // verus!
