//! The registry of companies and employees, the membership index between
//! them, and the proof service built on the ledger.

use vstd::prelude::*;
use crate::code::{
    code_text, generate_random_code, lemma_code_text_injective, mint_code, segment_of, SEGMENT_LEN,
};
use crate::error::ProofError;
use crate::index::IDList;
use crate::ledger::{
    consume_outcome, consume_records, has_code, ledger_grows, lemma_consume_grows, lemma_push_grows,
    position_of, Proof, ProofLedger,
};

verus! {

/// How long a proof stays valid by default: 24 hours, in nanoseconds.
pub const DEFAULT_VALIDITY: u64 = 86_400_000_000_000;

pub struct Company {
    pub id: u64,
    pub name: String,
    pub admin_id: u64,
    pub created_at: u64,
    pub is_active: bool,
}

impl Company {
    /// Makes `employee` a member of this company in `service`, as
    /// `ProofService::add_membership` does.
    pub fn add_employee(&self, service: &mut ProofService, employee: &Employee) -> (r: Result<(), ProofError>)
        requires
            old(service).wf(),
        ensures
            final(service).wf(),
            r == old(service).membership_added(self.id, employee.id),
            r is Err ==> *final(service) == *old(service),
            self.id < old(service).n_companies() && employee.id < old(service).n_employees()
                && old(service).members_view()[self.id as int].contains(employee.id)
                ==> *final(service) == *old(service),
            r is Ok ==> final(service).members_view() == old(service).members_view().update(
                self.id as int,
                with_id(old(service).members_view()[self.id as int], employee.id),
            ),
            r is Ok ==> final(service).memberships_view() == old(service).memberships_view().update(
                employee.id as int,
                with_id(old(service).memberships_view()[employee.id as int], self.id),
            ),
            final(service).same_registry_but_members(old(service)),
    {
        service.add_membership(self.id, employee.id)
    }

    /// Ends the membership of employee `emp_id` in this company in
    /// `service`, as `ProofService::remove_membership` does.
    pub fn remove_employee(&self, service: &mut ProofService, emp_id: u64) -> (r: Result<(), ProofError>)
        requires
            old(service).wf(),
        ensures
            final(service).wf(),
            r == old(service).membership_removed(self.id, emp_id),
            r is Err ==> *final(service) == *old(service),
            r is Ok ==> final(service).members_view() == old(service).members_view().update(
                self.id as int,
                without_id(old(service).members_view()[self.id as int], emp_id),
            ),
            r is Ok ==> final(service).memberships_view() == old(service).memberships_view().update(
                emp_id as int,
                without_id(old(service).memberships_view()[emp_id as int], self.id),
            ),
            final(service).same_registry_but_members(old(service)),
    {
        service.remove_membership(self.id, emp_id)
    }

    /// The records of this company's members in `service`, in the order
    /// they joined. A company unknown to `service` is `NotFound`.
    pub fn list_my_employee(&self, service: &ProofService) -> (r: Result<Vec<Employee>, ProofError>)
        requires
            service.wf(),
        ensures
            self.id >= service.n_companies() ==> r is Err && r->Err_0 == ProofError::NotFound,
            self.id < service.n_companies() ==> r is Ok && r->Ok_0@ == service.members_view()[self.id as int].map_values(
                |e: u64| service.employees_view()[e as int],
            ),
    {
        let ids = match service.list_employees_of(self.id) {
            Err(err) => {
                return Err(err);
            },
            Ok(ids) => ids,
        };
        let ghost ms = service.members_view()[self.id as int];
        let mut out: Vec<Employee> = Vec::new();
        let mut i: usize = 0;
        while i < ids.len()
            invariant
                service.wf(),
                self.id < service.n_companies(),
                ms == service.members_view()[self.id as int],
                ids@ == ms,
                i <= ids@.len(),
                out@ == ms.subrange(0, i as int).map_values(|e: u64| service.employees_view()[e as int]),
            decreases ids@.len() - i,
        {
            let e = ids[i];
            proof {
                assert(ms[i as int] == e);
            }
            match service.get_employee(e) {
                Some(emp) => {
                    out.push(emp);
                },
                None => {},
            }
            i = i + 1;
            assert(out@ =~= ms.subrange(0, i as int).map_values(|e: u64| service.employees_view()[e as int]));
        }
        assert(ms.subrange(0, ids@.len() as int) =~= ms);
        Ok(out)
    }

    /// An equal copy of the company.
    pub fn duplicate(&self) -> (r: Company)
        ensures
            r == *self,
    {
        Company {
            id: self.id,
            name: self.name.clone(),
            admin_id: self.admin_id,
            created_at: self.created_at,
            is_active: self.is_active,
        }
    }
}

pub struct Employee {
    pub id: u64,
    pub principal: String,
    pub full_name: String,
    pub added_at: u64,
}

impl Employee {
    /// The companies this employee belongs to in `service`, in the order it
    /// joined them. An employee unknown to `service` is `NotFound`.
    pub fn list_comp(&self, service: &ProofService) -> (r: Result<Vec<u64>, ProofError>)
        requires
            service.wf(),
        ensures
            self.id >= service.n_employees() ==> r is Err && r->Err_0 == ProofError::NotFound,
            self.id < service.n_employees() ==> r is Ok && r->Ok_0@ == service.memberships_view()[self.id as int],
    {
        service.list_companies_of(self.id)
    }

    /// An equal copy of the employee.
    pub fn duplicate(&self) -> (r: Employee)
        ensures
            r == *self,
    {
        Employee {
            id: self.id,
            principal: self.principal.clone(),
            full_name: self.full_name.clone(),
            added_at: self.added_at,
        }
    }
}

/// `s` with `x` appended unless already there.
pub open spec fn with_id(s: Seq<u64>, x: u64) -> Seq<u64> {
    if s.contains(x) {
        s
    } else {
        s.push(x)
    }
}

/// `s` without `x`, the others in their order.
pub open spec fn without_id(s: Seq<u64>, x: u64) -> Seq<u64> {
    if s.contains(x) {
        s.remove(s.index_of(x))
    } else {
        s
    }
}

/// Some employee is registered under `principal`.
pub open spec fn has_principal(es: Seq<Employee>, principal: Seq<char>) -> bool {
    exists|i: int| 0 <= i < es.len() && es[i].principal@ == principal
}

/// The position of the employee registered under `principal`.
pub open spec fn employee_of(es: Seq<Employee>, principal: Seq<char>) -> int {
    choose|i: int| 0 <= i < es.len() && es[i].principal@ == principal
}

/// Every list of `ls` is free of repeats and holds ids below `bound`.
pub open spec fn lists_bounded(ls: Seq<Seq<u64>>, bound: nat) -> bool {
    forall|i: int|
        0 <= i < ls.len() ==> (#[trigger] ls[i]).no_duplicates() && forall|k: int|
            0 <= k < ls[i].len() ==> ls[i][k] < bound
}

/// Adding a valid id to one list, or raising the bound, keeps the lists bounded.
proof fn lemma_list_added(
    old_ls: Seq<Seq<u64>>,
    ls: Seq<Seq<u64>>,
    changed: int,
    id: u64,
    old_bound: nat,
    bound: nat,
)
    requires
        lists_bounded(old_ls, old_bound),
        old_bound <= bound,
        id < bound,
        0 <= changed < old_ls.len(),
        ls == old_ls.update(changed, with_id(old_ls[changed], id)),
        ls[changed].no_duplicates(),
    ensures
        lists_bounded(ls, bound),
{
    assert forall|i: int| 0 <= i < ls.len() implies (#[trigger] ls[i]).no_duplicates() && forall|k: int|
        0 <= k < ls[i].len() ==> ls[i][k] < bound by {
        if i == changed {
            assert forall|k: int| 0 <= k < ls[i].len() implies ls[i][k] < bound by {
                if k < old_ls[i].len() {
                    assert(ls[i][k] == old_ls[i][k]);
                }
            }
        } else {
            assert(ls[i] == old_ls[i]);
        }
    }
}

/// Taking ids out of one list keeps the lists bounded.
proof fn lemma_list_removed(old_ls: Seq<Seq<u64>>, ls: Seq<Seq<u64>>, changed: int, id: u64, bound: nat)
    requires
        lists_bounded(old_ls, bound),
        0 <= changed < old_ls.len(),
        ls.len() == old_ls.len(),
        forall|i: int| 0 <= i < ls.len() && i != changed ==> ls[i] == old_ls[i],
        ls[changed].no_duplicates(),
        forall|y: u64| ls[changed].contains(y) ==> old_ls[changed].contains(y),
    ensures
        lists_bounded(ls, bound),
{
    assert forall|i: int| 0 <= i < ls.len() implies (#[trigger] ls[i]).no_duplicates() && forall|k: int|
        0 <= k < ls[i].len() ==> ls[i][k] < bound by {
        if i == changed {
            assert forall|k: int| 0 <= k < ls[i].len() implies ls[i][k] < bound by {
                assert(ls[i].contains(ls[i][k]));
                assert(old_ls[i].contains(ls[i][k]));
            }
        } else {
            assert(ls[i] == old_ls[i]);
        }
    }
}

/// Adds `x` to the list at position `i`.
fn add_at(lists: &mut Vec<IDList>, i: usize, x: u64)
    requires
        i < old(lists)@.len(),
        old(lists)@[i as int].wf(),
    ensures
        final(lists)@.len() == old(lists)@.len(),
        final(lists)@[i as int].wf(),
        final(lists)@[i as int]@ == with_id(old(lists)@[i as int]@, x),
        forall|j: int| 0 <= j < old(lists)@.len() && j != i ==> final(lists)@[j] == old(lists)@[j],
{
    let mut l = IDList::new();
    lists.set_and_swap(i, &mut l);
    l.add(x);
    lists.set(i, l);
}

/// Takes `x` out of the list at position `i`.
fn remove_at(lists: &mut Vec<IDList>, i: usize, x: u64)
    requires
        i < old(lists)@.len(),
        old(lists)@[i as int].wf(),
    ensures
        final(lists)@.len() == old(lists)@.len(),
        final(lists)@[i as int].wf(),
        final(lists)@[i as int]@ == without_id(old(lists)@[i as int]@, x),
        forall|y: u64| final(lists)@[i as int]@.contains(y) <==> (old(lists)@[i as int]@.contains(y) && y != x),
        forall|j: int| 0 <= j < old(lists)@.len() && j != i ==> final(lists)@[j] == old(lists)@[j],
{
    let mut l = IDList::new();
    lists.set_and_swap(i, &mut l);
    l.remove(x);
    lists.set(i, l);
}

/// `code` was built for company `company_id` with a segment of the usual
/// length and a sequence number below `bound`.
pub open spec fn code_below(code: Seq<char>, company_id: u64, bound: u64) -> bool {
    exists|g: Seq<char>, s: u64|
        g.len() == SEGMENT_LEN && s < bound && code == #[trigger] code_text(company_id, g, s)
}

/// When a proof issued at `now` expires: `validity` later, or at the end of
/// the clock's range.
pub open spec fn expiry_of(now: u64, validity: u64) -> u64 {
    if now as int + validity as int > u64::MAX as int {
        u64::MAX
    } else {
        (now + validity) as u64
    }
}

/// The whole state: registry, membership index, per-company sequence
/// counters and the proof ledger.
pub struct ProofService {
    companies: Vec<Company>,
    employees: Vec<Employee>,
    company_employees: Vec<IDList>,
    employee_companies: Vec<IDList>,
    employee_admin: Vec<IDList>,
    sequences: Vec<u64>,
    ledger: ProofLedger,
    validity: u64,
}

impl ProofService {
    pub closed spec fn companies_view(&self) -> Seq<Company> {
        self.companies@
    }

    pub closed spec fn employees_view(&self) -> Seq<Employee> {
        self.employees@
    }

    /// Company id to the ids of its members.
    pub closed spec fn members_view(&self) -> Seq<Seq<u64>> {
        Seq::new(self.company_employees@.len(), |c: int| self.company_employees@[c]@)
    }

    /// Employee id to the ids of the companies it belongs to.
    pub closed spec fn memberships_view(&self) -> Seq<Seq<u64>> {
        Seq::new(self.employee_companies@.len(), |e: int| self.employee_companies@[e]@)
    }

    /// Employee id to the ids of the companies it administers.
    pub closed spec fn admins_view(&self) -> Seq<Seq<u64>> {
        Seq::new(self.employee_admin@.len(), |e: int| self.employee_admin@[e]@)
    }

    /// Company id to the next sequence number of its codes.
    pub closed spec fn sequences_view(&self) -> Seq<u64> {
        self.sequences@
    }

    pub closed spec fn records(&self) -> Seq<Proof> {
        self.ledger.records()
    }

    /// How long an issued proof stays valid.
    pub closed spec fn validity_view(&self) -> u64 {
        self.validity
    }

    pub closed spec fn inner_wf(&self) -> bool {
        &&& self.ledger.wf()
        &&& forall|c: int|
            0 <= c < self.company_employees@.len() ==> (#[trigger] self.company_employees@[c]).wf()
        &&& forall|e: int|
            0 <= e < self.employee_companies@.len() ==> (
            #[trigger] self.employee_companies@[e]).wf()
        &&& forall|e: int|
            0 <= e < self.employee_admin@.len() ==> (#[trigger] self.employee_admin@[e]).wf()
    }

    pub open spec fn n_companies(&self) -> nat {
        self.companies_view().len()
    }

    pub open spec fn n_employees(&self) -> nat {
        self.employees_view().len()
    }

    /// The state is consistent: ids are positions, principals are unique,
    /// index entries reference existing records, the two directions of the
    /// membership index agree, and no two proofs share a code.
    pub open spec fn wf(&self) -> bool {
        &&& self.inner_wf()
        &&& self.members_view().len() == self.n_companies()
        &&& self.sequences_view().len() == self.n_companies()
        &&& self.memberships_view().len() == self.n_employees()
        &&& self.admins_view().len() == self.n_employees()
        &&& forall|c: int|
            0 <= c < self.n_companies() ==> (#[trigger] self.companies_view()[c]).id == c
                && self.companies_view()[c].admin_id < self.n_employees()
        &&& forall|e: int|
            0 <= e < self.n_employees() ==> (#[trigger] self.employees_view()[e]).id == e
        &&& forall|a: int, b: int|
            0 <= a < self.n_employees() && 0 <= b < self.n_employees() && a != b
                ==> #[trigger] self.employees_view()[a].principal@
                != #[trigger] self.employees_view()[b].principal@
        &&& lists_bounded(self.members_view(), self.n_employees())
        &&& lists_bounded(self.memberships_view(), self.n_companies())
        &&& lists_bounded(self.admins_view(), self.n_companies())
        &&& forall|c: int, e: int|
            0 <= c < self.n_companies() && 0 <= e < self.n_employees() ==> (
            #[trigger] self.members_view()[c].contains(e as u64) <==> #[trigger] self.memberships_view()[e].contains(
                c as u64,
            ))
        &&& crate::ledger::codes_unique(self.records())
        &&& forall|i: int|
            0 <= i < self.records().len() ==> (#[trigger] self.records()[i]).company_id
                < self.n_companies() && code_below(
                self.records()[i].code@,
                self.records()[i].company_id,
                self.sequences_view()[self.records()[i].company_id as int],
            )
    }

    /// An empty service whose proofs stay valid for `validity` nanoseconds.
    pub fn new(validity: u64) -> (r: Self)
        ensures
            r.wf(),
            r.companies_view() == Seq::<Company>::empty(),
            r.employees_view() == Seq::<Employee>::empty(),
            r.records() == Seq::<Proof>::empty(),
            r.validity_view() == validity,
    {
        let r = ProofService {
            companies: Vec::new(),
            employees: Vec::new(),
            company_employees: Vec::new(),
            employee_companies: Vec::new(),
            employee_admin: Vec::new(),
            sequences: Vec::new(),
            ledger: ProofLedger::new(),
            validity,
        };
        assert(r.members_view() =~= Seq::<Seq<u64>>::empty());
        assert(r.memberships_view() =~= Seq::<Seq<u64>>::empty());
        assert(r.admins_view() =~= Seq::<Seq<u64>>::empty());
        r
    }
    /// Records that employee `employee_id` belongs to company `company_id`,
    /// in both directions of the index at once; nothing changes when it is
    /// already recorded. An absent company or employee is `NotFound`; a
    /// deactivated company takes no new members (`Unauthorized`).
    pub fn add_membership(&mut self, company_id: u64, employee_id: u64) -> (r: Result<(), ProofError>)
        requires
            old(self).wf(),
        ensures
            final(self).wf(),
            company_id >= old(self).n_companies() || employee_id >= old(self).n_employees()
                ==> r == Err::<(), ProofError>(ProofError::NotFound),
            company_id < old(self).n_companies() && employee_id < old(self).n_employees()
                && old(self).members_view()[company_id as int].contains(employee_id)
                ==> r is Ok && *final(self) == *old(self),
            company_id < old(self).n_companies() && employee_id < old(self).n_employees()
                && !old(self).members_view()[company_id as int].contains(employee_id)
                && !old(self).companies_view()[company_id as int].is_active
                ==> r == Err::<(), ProofError>(ProofError::Unauthorized),
            company_id < old(self).n_companies() && employee_id < old(self).n_employees()
                && old(self).companies_view()[company_id as int].is_active ==> r is Ok,
            r == old(self).membership_added(company_id, employee_id),
            final(self).same_registry_but_members(old(self)),
            r is Err ==> *final(self) == *old(self),
            r is Ok ==> final(self).members_view() == old(self).members_view().update(
                company_id as int,
                with_id(old(self).members_view()[company_id as int], employee_id),
            ),
            r is Ok ==> final(self).memberships_view() == old(self).memberships_view().update(
                employee_id as int,
                with_id(old(self).memberships_view()[employee_id as int], company_id),
            ),
            final(self).companies_view() == old(self).companies_view(),
            final(self).employees_view() == old(self).employees_view(),
            final(self).admins_view() == old(self).admins_view(),
            final(self).sequences_view() == old(self).sequences_view(),
            final(self).records() == old(self).records(),
            final(self).validity_view() == old(self).validity_view(),
    {
        if company_id >= self.companies.len() as u64 || employee_id >= self.employees.len() as u64 {
            return Err(ProofError::NotFound);
        }
        proof {
            assert(self.company_employees@[company_id as int]@ == self.members_view()[company_id as int]);
        }
        if self.company_employees[company_id as usize].contains(employee_id) {
            proof {
                let ms = self.members_view();
                let ns = self.memberships_view();
                assert(ms[company_id as int].contains((employee_id as int) as u64));
                assert(ns[employee_id as int].contains((company_id as int) as u64));
                assert(ms.update(company_id as int, with_id(ms[company_id as int], employee_id)) =~= ms);
                assert(ns.update(employee_id as int, with_id(ns[employee_id as int], company_id)) =~= ns);
            }
            return Ok(());
        }
        if !self.companies[company_id as usize].is_active {
            return Err(ProofError::Unauthorized);
        }
        let ghost old_members = self.members_view();
        let ghost old_ships = self.memberships_view();
        proof {
            assert(self.company_employees@[company_id as int]@ == old_members[company_id as int]);
        }
        add_at(&mut self.company_employees, company_id as usize, employee_id);
        add_at(&mut self.employee_companies, employee_id as usize, company_id);
        proof {
            let c0 = company_id as int;
            let e0 = employee_id as int;
            assert(self.members_view() =~= old_members.update(c0, with_id(old_members[c0], employee_id)));
            assert(self.memberships_view() =~= old_ships.update(e0, with_id(old_ships[e0], company_id)));
            let nm = self.members_view();
            let ns = self.memberships_view();
            lemma_list_added(old_members, nm, c0, employee_id, self.n_employees(), self.n_employees());
            lemma_list_added(old_ships, ns, e0, company_id, self.n_companies(), self.n_companies());
            assert forall|c: int, e: int| 0 <= c < self.n_companies() && 0 <= e < self.n_employees()
                implies (#[trigger] nm[c].contains(e as u64) <==> #[trigger] ns[e].contains(c as u64)) by {
                if c == c0 && e == e0 {
                    assert(nm[c].contains(e as u64)) by {
                        if !old_members[c].contains(e as u64) {
                            assert(nm[c][nm[c].len() - 1] == e as u64);
                        }
                    }
                    assert(ns[e].contains(c as u64)) by {
                        if !old_ships[e].contains(c as u64) {
                            assert(ns[e][ns[e].len() - 1] == c as u64);
                        }
                    }
                } else if c == c0 {
                    assert(ns[e] == old_ships[e]);
                    assert(nm[c].contains(e as u64) <==> old_members[c].contains(e as u64)) by {
                        if nm[c].contains(e as u64) && !old_members[c].contains(e as u64) {
                            let k = choose|k: int| 0 <= k < nm[c].len() && nm[c][k] == e as u64;
                            if k < old_members[c].len() {
                                assert(old_members[c][k] == nm[c][k]);
                            }
                        }
                        if old_members[c].contains(e as u64) && !old_members[c].contains(employee_id) {
                            let k = choose|k: int| 0 <= k < old_members[c].len() && old_members[c][k] == e as u64;
                            assert(nm[c][k] == e as u64);
                        }
                    }
                } else if e == e0 {
                    assert(nm[c] == old_members[c]);
                    assert(ns[e].contains(c as u64) <==> old_ships[e].contains(c as u64)) by {
                        if ns[e].contains(c as u64) && !old_ships[e].contains(c as u64) {
                            let k = choose|k: int| 0 <= k < ns[e].len() && ns[e][k] == c as u64;
                            if k < old_ships[e].len() {
                                assert(old_ships[e][k] == ns[e][k]);
                            }
                        }
                        if old_ships[e].contains(c as u64) && !old_ships[e].contains(company_id) {
                            let k = choose|k: int| 0 <= k < old_ships[e].len() && old_ships[e][k] == c as u64;
                            assert(ns[e][k] == c as u64);
                        }
                    }
                } else {
                    assert(nm[c] == old_members[c]);
                    assert(ns[e] == old_ships[e]);
                }
            }
            assert(self.admins_view() =~= old(self).admins_view());
        }
        Ok(())
    }
    /// Removes the membership of `employee_id` in `company_id` from both
    /// directions of the index at once; nothing changes when it is absent.
    /// An absent company or employee is `NotFound`.
    pub fn remove_membership(&mut self, company_id: u64, employee_id: u64) -> (r: Result<(), ProofError>)
        requires
            old(self).wf(),
        ensures
            final(self).wf(),
            company_id >= old(self).n_companies() || employee_id >= old(self).n_employees()
                ==> r == Err::<(), ProofError>(ProofError::NotFound),
            company_id < old(self).n_companies() && employee_id < old(self).n_employees() ==> r is Ok,
            r == old(self).membership_removed(company_id, employee_id),
            final(self).same_registry_but_members(old(self)),
            r is Err ==> *final(self) == *old(self),
            r is Ok ==> final(self).members_view() == old(self).members_view().update(
                company_id as int,
                without_id(old(self).members_view()[company_id as int], employee_id),
            ),
            r is Ok ==> final(self).memberships_view() == old(self).memberships_view().update(
                employee_id as int,
                without_id(old(self).memberships_view()[employee_id as int], company_id),
            ),
            final(self).companies_view() == old(self).companies_view(),
            final(self).employees_view() == old(self).employees_view(),
            final(self).admins_view() == old(self).admins_view(),
            final(self).sequences_view() == old(self).sequences_view(),
            final(self).records() == old(self).records(),
            final(self).validity_view() == old(self).validity_view(),
    {
        if company_id >= self.companies.len() as u64 || employee_id >= self.employees.len() as u64 {
            return Err(ProofError::NotFound);
        }
        let ghost old_members = self.members_view();
        let ghost old_ships = self.memberships_view();
        proof {
            assert(self.company_employees@[company_id as int]@ == old_members[company_id as int]);
        }
        remove_at(&mut self.company_employees, company_id as usize, employee_id);
        remove_at(&mut self.employee_companies, employee_id as usize, company_id);
        proof {
            let c0 = company_id as int;
            let e0 = employee_id as int;
            assert(self.members_view() =~= old_members.update(c0, without_id(old_members[c0], employee_id)));
            assert(self.memberships_view() =~= old_ships.update(e0, without_id(old_ships[e0], company_id)));
            let nm = self.members_view();
            let ns = self.memberships_view();
            lemma_list_removed(old_members, nm, c0, employee_id, self.n_employees());
            lemma_list_removed(old_ships, ns, e0, company_id, self.n_companies());
            assert forall|c: int, e: int| 0 <= c < self.n_companies() && 0 <= e < self.n_employees()
                implies (#[trigger] nm[c].contains(e as u64) <==> #[trigger] ns[e].contains(c as u64)) by {
                if c != c0 {
                    assert(nm[c] == old_members[c]);
                }
                if e != e0 {
                    assert(ns[e] == old_ships[e]);
                }
            }
            assert(self.admins_view() =~= old(self).admins_view());
        }
        Ok(())
    }

    /// Records that employee `employee_id` administers company `company_id`,
    /// independently of membership. An absent company or employee is `NotFound`.
    pub fn grant_admin(&mut self, company_id: u64, employee_id: u64) -> (r: Result<(), ProofError>)
        requires
            old(self).wf(),
        ensures
            final(self).wf(),
            company_id >= old(self).n_companies() || employee_id >= old(self).n_employees()
                ==> r == Err::<(), ProofError>(ProofError::NotFound),
            company_id < old(self).n_companies() && employee_id < old(self).n_employees() ==> r is Ok,
            r is Err ==> *final(self) == *old(self),
            r is Ok ==> final(self).admins_view() == old(self).admins_view().update(
                employee_id as int,
                with_id(old(self).admins_view()[employee_id as int], company_id),
            ),
            final(self).companies_view() == old(self).companies_view(),
            final(self).employees_view() == old(self).employees_view(),
            final(self).members_view() == old(self).members_view(),
            final(self).memberships_view() == old(self).memberships_view(),
            final(self).sequences_view() == old(self).sequences_view(),
            final(self).records() == old(self).records(),
            final(self).validity_view() == old(self).validity_view(),
    {
        if company_id >= self.companies.len() as u64 || employee_id >= self.employees.len() as u64 {
            return Err(ProofError::NotFound);
        }
        let ghost old_admins = self.admins_view();
        proof {
            assert(self.employee_admin@[employee_id as int]@ == old_admins[employee_id as int]);
        }
        add_at(&mut self.employee_admin, employee_id as usize, company_id);
        proof {
            let e0 = employee_id as int;
            assert(self.admins_view() =~= old_admins.update(e0, with_id(old_admins[e0], company_id)));
            let na = self.admins_view();
            lemma_list_added(old_admins, na, e0, company_id, self.n_companies(), self.n_companies());
            assert(self.members_view() =~= old(self).members_view());
            assert(self.memberships_view() =~= old(self).memberships_view());
        }
        Ok(())
    }

    /// Withdraws the administration of `company_id` by `employee_id`;
    /// nothing changes when it is absent. An absent company or employee is `NotFound`.
    pub fn revoke_admin(&mut self, company_id: u64, employee_id: u64) -> (r: Result<(), ProofError>)
        requires
            old(self).wf(),
        ensures
            final(self).wf(),
            company_id >= old(self).n_companies() || employee_id >= old(self).n_employees()
                ==> r == Err::<(), ProofError>(ProofError::NotFound),
            company_id < old(self).n_companies() && employee_id < old(self).n_employees() ==> r is Ok,
            r is Err ==> *final(self) == *old(self),
            r is Ok ==> final(self).admins_view() == old(self).admins_view().update(
                employee_id as int,
                without_id(old(self).admins_view()[employee_id as int], company_id),
            ),
            final(self).companies_view() == old(self).companies_view(),
            final(self).employees_view() == old(self).employees_view(),
            final(self).members_view() == old(self).members_view(),
            final(self).memberships_view() == old(self).memberships_view(),
            final(self).sequences_view() == old(self).sequences_view(),
            final(self).records() == old(self).records(),
            final(self).validity_view() == old(self).validity_view(),
    {
        if company_id >= self.companies.len() as u64 || employee_id >= self.employees.len() as u64 {
            return Err(ProofError::NotFound);
        }
        let ghost old_admins = self.admins_view();
        proof {
            assert(self.employee_admin@[employee_id as int]@ == old_admins[employee_id as int]);
        }
        remove_at(&mut self.employee_admin, employee_id as usize, company_id);
        proof {
            let e0 = employee_id as int;
            assert(self.admins_view() =~= old_admins.update(e0, without_id(old_admins[e0], company_id)));
            let na = self.admins_view();
            lemma_list_removed(old_admins, na, e0, company_id, self.n_companies());
            assert(self.members_view() =~= old(self).members_view());
            assert(self.memberships_view() =~= old(self).memberships_view());
        }
        Ok(())
    }
    /// The id of the employee registered under `principal`, if any.
    pub fn find_employee(&self, principal: &String) -> (r: Option<u64>)
        requires
            self.wf(),
        ensures
            r is None <==> !has_principal(self.employees_view(), principal@),
            r matches Some(e) ==> (e == employee_of(self.employees_view(), principal@)
                && e < self.n_employees()),
    {
        let mut i: usize = 0;
        while i < self.employees.len()
            invariant
                self.wf(),
                i <= self.employees@.len(),
                forall|k: int| 0 <= k < i ==> self.employees@[k].principal@ != principal@,
            decreases self.employees@.len() - i,
        {
            if self.employees[i].principal == *principal {
                proof {
                    let es = self.employees_view();
                    assert(es[i as int].principal@ == principal@);
                    assert(has_principal(es, principal@));
                    let j = employee_of(es, principal@);
                    assert(es[j].principal@ == principal@);
                    assert(j == i as int);
                    assert(es[i as int].id == i);
                }
                return Some(self.employees[i].id);
            }
            i = i + 1;
        }
        None
    }

    /// Registers an employee under `principal`, with the next employee id.
    /// A principal that is registered already is `AlreadyExists`.
    pub fn create_employee(&mut self, principal: String, full_name: String, now: u64) -> (r: Result<Employee, ProofError>)
        requires
            old(self).wf(),
            old(self).n_employees() < u64::MAX,
        ensures
            final(self).wf(),
            has_principal(old(self).employees_view(), principal@) ==> r == Err::<Employee, ProofError>(ProofError::AlreadyExists)
                && *final(self) == *old(self),
            !has_principal(old(self).employees_view(), principal@) ==> r is Ok,
            r matches Ok(emp) ==> {
                &&& emp.id == old(self).n_employees()
                &&& emp.principal@ == principal@
                &&& emp.full_name@ == full_name@
                &&& emp.added_at == now
                &&& final(self).employees_view() == old(self).employees_view().push(emp)
                &&& final(self).memberships_view() == old(self).memberships_view().push(Seq::<u64>::empty())
                &&& final(self).admins_view() == old(self).admins_view().push(Seq::<u64>::empty())
            },
            final(self).companies_view() == old(self).companies_view(),
            final(self).members_view() == old(self).members_view(),
            final(self).sequences_view() == old(self).sequences_view(),
            final(self).records() == old(self).records(),
            final(self).validity_view() == old(self).validity_view(),
    {
        if self.find_employee(&principal).is_some() {
            return Err(ProofError::AlreadyExists);
        }
        let id = self.employees.len() as u64;
        let emp = Employee { id, principal, full_name, added_at: now };
        let r = emp.duplicate();
        let ghost old_ships = self.memberships_view();
        let ghost old_admins = self.admins_view();
        let ghost old_members = self.members_view();
        self.employees.push(emp);
        self.employee_companies.push(IDList::new());
        self.employee_admin.push(IDList::new());
        proof {
            assert(self.memberships_view() =~= old_ships.push(Seq::<u64>::empty()));
            assert(self.admins_view() =~= old_admins.push(Seq::<u64>::empty()));
            assert(self.members_view() =~= old_members);
            let es = self.employees_view();
            assert forall|a: int, b: int|
                0 <= a < self.n_employees() && 0 <= b < self.n_employees() && a != b
                    implies #[trigger] es[a].principal@ != #[trigger] es[b].principal@ by {
                if a == id as int {
                    assert(old(self).employees_view()[b] == es[b]);
                } else if b == id as int {
                    assert(old(self).employees_view()[a] == es[a]);
                }
            }
            let nm = self.members_view();
            assert forall|c: int| 0 <= c < self.n_companies() implies (#[trigger] nm[c]).no_duplicates()
                && forall|k: int| 0 <= k < nm[c].len() ==> nm[c][k] < self.n_employees() by {
                assert(nm[c] == old_members[c]);
            }
            let ns = self.memberships_view();
            assert forall|c: int, e: int| 0 <= c < self.n_companies() && 0 <= e < self.n_employees()
                implies (#[trigger] nm[c].contains(e as u64) <==> #[trigger] ns[e].contains(c as u64)) by {
                if e == id as int {
                    assert(!ns[e].contains(c as u64));
                    assert(!nm[c].contains(e as u64)) by {
                        if nm[c].contains(e as u64) {
                            let k = choose|k: int| 0 <= k < nm[c].len() && nm[c][k] == e as u64;
                            assert(old_members[c][k] < old(self).n_employees());
                        }
                    }
                } else {
                    assert(ns[e] == old_ships[e]);
                }
            }
        }
        Ok(r)
    }

    /// Registers a company administered by employee `admin_id`, with the
    /// next company id, and records the administration. An absent admin is
    /// `NotFound`.
    pub fn create_company(&mut self, name: String, admin_id: u64, now: u64) -> (r: Result<Company, ProofError>)
        requires
            old(self).wf(),
            old(self).n_companies() < u64::MAX,
        ensures
            final(self).wf(),
            admin_id >= old(self).n_employees() ==> r == Err::<Company, ProofError>(ProofError::NotFound)
                && *final(self) == *old(self),
            admin_id < old(self).n_employees() ==> r is Ok,
            r matches Ok(co) ==> {
                &&& co.id == old(self).n_companies()
                &&& co.name@ == name@
                &&& co.admin_id == admin_id
                &&& co.created_at == now
                &&& co.is_active
                &&& final(self).companies_view() == old(self).companies_view().push(co)
                &&& final(self).members_view() == old(self).members_view().push(Seq::<u64>::empty())
                &&& final(self).sequences_view() == old(self).sequences_view().push(0)
                &&& final(self).admins_view() == old(self).admins_view().update(
                    admin_id as int,
                    old(self).admins_view()[admin_id as int].push(co.id),
                )
            },
            final(self).employees_view() == old(self).employees_view(),
            final(self).memberships_view() == old(self).memberships_view(),
            final(self).records() == old(self).records(),
            final(self).validity_view() == old(self).validity_view(),
    {
        if admin_id >= self.employees.len() as u64 {
            return Err(ProofError::NotFound);
        }
        let id = self.companies.len() as u64;
        let co = Company { id, name, admin_id, created_at: now, is_active: true };
        let r = co.duplicate();
        let ghost old_ships = self.memberships_view();
        let ghost old_admins = self.admins_view();
        let ghost old_members = self.members_view();
        self.companies.push(co);
        self.company_employees.push(IDList::new());
        self.sequences.push(0);
        proof {
            assert(self.employee_admin@[admin_id as int]@ == old_admins[admin_id as int]);
            assert(!old_admins[admin_id as int].contains(id)) by {
                if old_admins[admin_id as int].contains(id) {
                    let k = choose|k: int| 0 <= k < old_admins[admin_id as int].len() && old_admins[admin_id as int][k] == id;
                }
            }
        }
        add_at(&mut self.employee_admin, admin_id as usize, id);
        proof {
            let e0 = admin_id as int;
            assert(self.members_view() =~= old_members.push(Seq::<u64>::empty()));
            assert(self.memberships_view() =~= old_ships);
            assert(self.admins_view() =~= old_admins.update(e0, old_admins[e0].push(id)));
            let nm = self.members_view();
            let ns = self.memberships_view();
            let na = self.admins_view();
            assert forall|c: int| 0 <= c < self.n_companies() implies (#[trigger] nm[c]).no_duplicates()
                && forall|k: int| 0 <= k < nm[c].len() ==> nm[c][k] < self.n_employees() by {
                if c < id as int {
                    assert(nm[c] == old_members[c]);
                }
            }
            assert forall|e: int| 0 <= e < self.n_employees() implies (#[trigger] ns[e]).no_duplicates()
                && forall|k: int| 0 <= k < ns[e].len() ==> ns[e][k] < self.n_companies() by {
                assert(ns[e] == old_ships[e]);
            }
            lemma_list_added(old_admins, na, e0, id, old(self).n_companies(), self.n_companies());
            assert forall|c: int, e: int| 0 <= c < self.n_companies() && 0 <= e < self.n_employees()
                implies (#[trigger] nm[c].contains(e as u64) <==> #[trigger] ns[e].contains(c as u64)) by {
                if c == id as int {
                    assert(!nm[c].contains(e as u64));
                    assert(!ns[e].contains(c as u64)) by {
                        if ns[e].contains(c as u64) {
                            let k = choose|k: int| 0 <= k < ns[e].len() && ns[e][k] == c as u64;
                            assert(old_ships[e][k] < old(self).n_companies());
                        }
                    }
                } else {
                    assert(nm[c] == old_members[c]);
                }
            }
            let cs = self.companies_view();
            assert forall|c: int| 0 <= c < self.n_companies() implies (#[trigger] cs[c]).id == c
                && cs[c].admin_id < self.n_employees() by {
                if c < id as int {
                    assert(cs[c] == old(self).companies_view()[c]);
                }
            }
        }
        Ok(r)
    }

    /// Deactivates a company, for good: it keeps its records but takes no new
    /// members or proofs. An absent company is `NotFound`.
    pub fn deactivate_company(&mut self, company_id: u64) -> (r: Result<(), ProofError>)
        requires
            old(self).wf(),
        ensures
            final(self).wf(),
            company_id >= old(self).n_companies() ==> r == Err::<(), ProofError>(ProofError::NotFound)
                && *final(self) == *old(self),
            company_id < old(self).n_companies() ==> r is Ok && final(self).companies_view()
                == old(self).companies_view().update(
                company_id as int,
                Company { is_active: false, ..old(self).companies_view()[company_id as int] },
            ),
            final(self).employees_view() == old(self).employees_view(),
            final(self).members_view() == old(self).members_view(),
            final(self).memberships_view() == old(self).memberships_view(),
            final(self).admins_view() == old(self).admins_view(),
            final(self).sequences_view() == old(self).sequences_view(),
            final(self).records() == old(self).records(),
            final(self).validity_view() == old(self).validity_view(),
    {
        if company_id >= self.companies.len() as u64 {
            return Err(ProofError::NotFound);
        }
        let old_co = &self.companies[company_id as usize];
        let co = Company {
            id: old_co.id,
            name: old_co.name.clone(),
            admin_id: old_co.admin_id,
            created_at: old_co.created_at,
            is_active: false,
        };
        self.companies.set(company_id as usize, co);
        proof {
            let cs = self.companies_view();
            assert forall|c: int| 0 <= c < self.n_companies() implies (#[trigger] cs[c]).id == c
                && cs[c].admin_id < self.n_employees() by {
                assert(cs[c].id == old(self).companies_view()[c].id);
            }
        }
        Ok(())
    }
    /// What `add_membership(company_id, employee_id)` on `self` reports: a
    /// membership that is already recorded is no error, even in a
    /// deactivated company.
    pub open spec fn membership_added(&self, company_id: u64, employee_id: u64) -> Result<(), ProofError> {
        if company_id >= self.n_companies() || employee_id >= self.n_employees() {
            Err(ProofError::NotFound)
        } else if self.members_view()[company_id as int].contains(employee_id) {
            Ok(())
        } else if !self.companies_view()[company_id as int].is_active {
            Err(ProofError::Unauthorized)
        } else {
            Ok(())
        }
    }

    /// What `remove_membership(company_id, employee_id)` on `self` reports.
    pub open spec fn membership_removed(&self, company_id: u64, employee_id: u64) -> Result<(), ProofError> {
        if company_id >= self.n_companies() || employee_id >= self.n_employees() {
            Err(ProofError::NotFound)
        } else {
            Ok(())
        }
    }

    /// Everything but the membership index is the same in `self` and `other`.
    pub open spec fn same_registry_but_members(&self, other: &ProofService) -> bool {
        &&& self.companies_view() == other.companies_view()
        &&& self.employees_view() == other.employees_view()
        &&& self.admins_view() == other.admins_view()
        &&& self.sequences_view() == other.sequences_view()
        &&& self.records() == other.records()
        &&& self.validity_view() == other.validity_view()
    }

    /// Registry and index are the same in `self` and `other`; only proofs
    /// and sequence counters may differ.
    pub open spec fn same_registry(&self, other: &ProofService) -> bool {
        &&& self.companies_view() == other.companies_view()
        &&& self.employees_view() == other.employees_view()
        &&& self.members_view() == other.members_view()
        &&& self.memberships_view() == other.memberships_view()
        &&& self.admins_view() == other.admins_view()
        &&& self.validity_view() == other.validity_view()
        &&& self.sequences_view().len() == other.sequences_view().len()
    }

    /// Everything an issuance needs holds: the company exists and is active,
    /// the employee exists and is a member, the random bytes cover a
    /// segment, and the company's sequence counter is not exhausted.
    pub open spec fn issue_owed(&self, company_id: u64, employee_id: u64, random_bytes: Seq<u8>) -> bool {
        &&& company_id < self.n_companies()
        &&& employee_id < self.n_employees()
        &&& self.companies_view()[company_id as int].is_active
        &&& self.members_view()[company_id as int].contains(employee_id)
        &&& random_bytes.len() >= SEGMENT_LEN
        &&& self.sequences_view()[company_id as int] < u64::MAX
    }

    /// `after` is `self` with proof `p` issued for `company_id` and
    /// `employee_id` at `now`: its code carries the company's next sequence
    /// number, which the issuance reserves.
    pub open spec fn issued(&self, after: &ProofService, company_id: u64, employee_id: u64, now: u64, random_bytes: Seq<u8>, p: Proof) -> bool {
        let seq = self.sequences_view()[company_id as int];
        &&& p.code@ == code_text(company_id, segment_of(random_bytes), seq)
        &&& p.company_id == company_id
        &&& p.employee_id == employee_id
        &&& p.created_at == now
        &&& p.expires_at == expiry_of(now, self.validity_view())
        &&& !p.is_used
        &&& after.records() == self.records().push(p)
        &&& after.sequences_view() == self.sequences_view().update(company_id as int, (seq + 1) as u64)
    }

    /// Issues a proof that employee `employee_id` belongs to company
    /// `company_id`, valid from `now` for the configured duration. Its code
    /// joins the company id, a segment drawn from `random_bytes` and the
    /// company's next sequence number, and is new to the ledger.
    /// An absent company or employee is `NotFound`; a deactivated company or
    /// a non-member is `Unauthorized`; too few random bytes, or an exhausted
    /// sequence counter, are `GenerationExhausted`. A failure changes nothing.
    pub fn issue(&mut self, company_id: u64, employee_id: u64, now: u64, random_bytes: &Vec<u8>) -> (r: Result<Proof, ProofError>)
        requires
            old(self).wf(),
        ensures
            final(self).wf(),
            final(self).same_registry(old(self)),
            company_id >= old(self).n_companies() || employee_id >= old(self).n_employees()
                ==> r == Err::<Proof, ProofError>(ProofError::NotFound),
            company_id < old(self).n_companies() && employee_id < old(self).n_employees()
                && (!old(self).companies_view()[company_id as int].is_active
                || !old(self).members_view()[company_id as int].contains(employee_id))
                ==> r == Err::<Proof, ProofError>(ProofError::Unauthorized),
            company_id < old(self).n_companies() && employee_id < old(self).n_employees()
                && old(self).companies_view()[company_id as int].is_active
                && old(self).members_view()[company_id as int].contains(employee_id)
                && (random_bytes@.len() < SEGMENT_LEN
                || old(self).sequences_view()[company_id as int] == u64::MAX)
                ==> r == Err::<Proof, ProofError>(ProofError::GenerationExhausted),
            old(self).issue_owed(company_id, employee_id, random_bytes@) ==> r is Ok,
            r is Err ==> *final(self) == *old(self),
            ledger_grows(old(self).records(), final(self).records()),
            r matches Ok(p) ==> old(self).issued(final(self), company_id, employee_id, now, random_bytes@, p),
    {
        if company_id >= self.companies.len() as u64 || employee_id >= self.employees.len() as u64 {
            return Err(ProofError::NotFound);
        }
        let c = company_id as usize;
        proof {
            assert(self.company_employees@[c as int]@ == self.members_view()[c as int]);
        }
        if !self.companies[c].is_active || !self.company_employees[c].contains(employee_id) {
            return Err(ProofError::Unauthorized);
        }
        let segment = match generate_random_code(random_bytes) {
            None => {
                return Err(ProofError::GenerationExhausted);
            },
            Some(s) => s,
        };
        let seq = self.sequences[c];
        if seq == u64::MAX {
            return Err(ProofError::GenerationExhausted);
        }
        let code = mint_code(company_id, &segment, seq);
        proof {
            lemma_next_code_is_new(self, company_id, segment@);
        }
        let expires_at = if now > u64::MAX - self.validity {
            u64::MAX
        } else {
            now + self.validity
        };
        let p = Proof { code, company_id, employee_id, created_at: now, expires_at, is_used: false };
        let r = p.duplicate();
        let ghost old_seqs = self.sequences_view();
        let ghost old_ps = self.records();
        self.sequences.set(c, seq + 1);
        self.ledger.insert(p);
        proof {
            lemma_push_grows(old_ps, r);
            let ps = self.records();
            let seqs = self.sequences_view();
            assert forall|i: int| 0 <= i < ps.len() implies (#[trigger] ps[i]).company_id < self.n_companies()
                && code_below(ps[i].code@, ps[i].company_id, seqs[ps[i].company_id as int]) by {
                if i < old_ps.len() {
                    assert(ps[i] == old_ps[i]);
                    let ci = ps[i].company_id;
                    assert(code_below(ps[i].code@, ci, old_seqs[ci as int]));
                    let (g, s) = choose|g: Seq<char>, s: u64|
                        g.len() == SEGMENT_LEN && s < old_seqs[ci as int]
                            && ps[i].code@ == #[trigger] code_text(ci, g, s);
                    assert(s < seqs[ci as int]);
                } else {
                    assert(ps[i] == r);
                    assert(r.code@ == code_text(company_id, segment@, seq));
                    assert(seq < seqs[c as int]);
                }
            }
        }
        Ok(r)
    }

    /// Number of registered companies.
    pub fn company_count(&self) -> (r: usize)
        ensures
            r == self.n_companies(),
    {
        self.companies.len()
    }

    /// Number of registered employees.
    pub fn employee_count(&self) -> (r: usize)
        ensures
            r == self.n_employees(),
    {
        self.employees.len()
    }

    /// How long an issued proof stays valid.
    pub fn proof_validity(&self) -> (r: u64)
        ensures
            r == self.validity_view(),
    {
        self.validity
    }

    pub fn get_company(&self, company_id: u64) -> (r: Option<Company>)
        requires
            self.wf(),
        ensures
            company_id < self.n_companies() ==> r == Some(self.companies_view()[company_id as int]),
            company_id >= self.n_companies() ==> r is None,
    {
        if company_id >= self.companies.len() as u64 {
            None
        } else {
            Some(self.companies[company_id as usize].duplicate())
        }
    }

    pub fn get_employee(&self, employee_id: u64) -> (r: Option<Employee>)
        requires
            self.wf(),
        ensures
            employee_id < self.n_employees() ==> r == Some(self.employees_view()[employee_id as int]),
            employee_id >= self.n_employees() ==> r is None,
    {
        if employee_id >= self.employees.len() as u64 {
            None
        } else {
            Some(self.employees[employee_id as usize].duplicate())
        }
    }

    /// Whether employee `employee_id` belongs to company `company_id`. An
    /// absent company or employee is `NotFound`.
    pub fn is_member(&self, company_id: u64, employee_id: u64) -> (r: Result<bool, ProofError>)
        requires
            self.wf(),
        ensures
            company_id >= self.n_companies() || employee_id >= self.n_employees()
                ==> r == Err::<bool, ProofError>(ProofError::NotFound),
            company_id < self.n_companies() && employee_id < self.n_employees()
                ==> r == Ok::<bool, ProofError>(self.members_view()[company_id as int].contains(employee_id)),
    {
        if company_id >= self.companies.len() as u64 || employee_id >= self.employees.len() as u64 {
            return Err(ProofError::NotFound);
        }
        proof {
            assert(self.company_employees@[company_id as int]@ == self.members_view()[company_id as int]);
        }
        Ok(self.company_employees[company_id as usize].contains(employee_id))
    }

    /// The members of company `company_id`, in the order they joined. An
    /// absent company is `NotFound`.
    pub fn list_employees_of(&self, company_id: u64) -> (r: Result<Vec<u64>, ProofError>)
        requires
            self.wf(),
        ensures
            company_id >= self.n_companies() ==> r is Err && r->Err_0 == ProofError::NotFound,
            company_id < self.n_companies() ==> r is Ok && r->Ok_0@ == self.members_view()[company_id as int],
    {
        if company_id >= self.companies.len() as u64 {
            return Err(ProofError::NotFound);
        }
        proof {
            assert(self.company_employees@[company_id as int]@ == self.members_view()[company_id as int]);
        }
        Ok(self.company_employees[company_id as usize].to_vec())
    }

    /// The companies that employee `employee_id` belongs to, in the order
    /// it joined them. An absent employee is `NotFound`.
    pub fn list_companies_of(&self, employee_id: u64) -> (r: Result<Vec<u64>, ProofError>)
        requires
            self.wf(),
        ensures
            employee_id >= self.n_employees() ==> r is Err && r->Err_0 == ProofError::NotFound,
            employee_id < self.n_employees() ==> r is Ok && r->Ok_0@ == self.memberships_view()[employee_id as int],
    {
        if employee_id >= self.employees.len() as u64 {
            return Err(ProofError::NotFound);
        }
        proof {
            assert(self.employee_companies@[employee_id as int]@ == self.memberships_view()[employee_id as int]);
        }
        Ok(self.employee_companies[employee_id as usize].to_vec())
    }

    /// The companies that employee `employee_id` administers. An absent
    /// employee is `NotFound`.
    pub fn list_administered_by(&self, employee_id: u64) -> (r: Result<Vec<u64>, ProofError>)
        requires
            self.wf(),
        ensures
            employee_id >= self.n_employees() ==> r is Err && r->Err_0 == ProofError::NotFound,
            employee_id < self.n_employees() ==> r is Ok && r->Ok_0@ == self.admins_view()[employee_id as int],
    {
        if employee_id >= self.employees.len() as u64 {
            return Err(ProofError::NotFound);
        }
        proof {
            assert(self.employee_admin@[employee_id as int]@ == self.admins_view()[employee_id as int]);
        }
        Ok(self.employee_admin[employee_id as usize].to_vec())
    }

    /// The companies of the caller registered under `principal`. An
    /// unregistered caller is `NotFound`.
    pub fn list_my_companies(&self, principal: &String) -> (r: Result<Vec<u64>, ProofError>)
        requires
            self.wf(),
        ensures
            !has_principal(self.employees_view(), principal@) ==> r is Err && r->Err_0 == ProofError::NotFound,
            has_principal(self.employees_view(), principal@) ==> r is Ok && r->Ok_0@
                == self.memberships_view()[employee_of(self.employees_view(), principal@)],
    {
        match self.find_employee(principal) {
            None => Err(ProofError::NotFound),
            Some(e) => self.list_companies_of(e),
        }
    }

    /// Issues a proof for the caller registered under `principal`, for the
    /// `company_index`-th company of its list, and returns the code. An
    /// unregistered caller is `NotFound`; an index beyond the list is
    /// `IndexOutOfRange`; the rest is as for `issue`.
    pub fn request_proof(&mut self, principal: &String, company_index: u64, now: u64, random_bytes: &Vec<u8>) -> (r: Result<String, ProofError>)
        requires
            old(self).wf(),
        ensures
            final(self).wf(),
            final(self).same_registry(old(self)),
            r is Err ==> *final(self) == *old(self),
            ledger_grows(old(self).records(), final(self).records()),
            !has_principal(old(self).employees_view(), principal@)
                ==> r is Err && r->Err_0 == ProofError::NotFound,
            has_principal(old(self).employees_view(), principal@) && company_index
                >= old(self).memberships_view()[employee_of(old(self).employees_view(), principal@)].len()
                ==> r is Err && r->Err_0 == ProofError::IndexOutOfRange,
            has_principal(old(self).employees_view(), principal@) && company_index
                < old(self).memberships_view()[employee_of(old(self).employees_view(), principal@)].len()
                ==> {
                    let e = employee_of(old(self).employees_view(), principal@);
                    let c = old(self).memberships_view()[e][company_index as int];
                    &&& !old(self).companies_view()[c as int].is_active
                        ==> r is Err && r->Err_0 == ProofError::Unauthorized
                    &&& old(self).companies_view()[c as int].is_active && (random_bytes@.len() < SEGMENT_LEN
                        || old(self).sequences_view()[c as int] == u64::MAX)
                        ==> r is Err && r->Err_0 == ProofError::GenerationExhausted
                    &&& old(self).issue_owed(c, e as u64, random_bytes@) ==> r is Ok
                    &&& r matches Ok(code) ==> exists|p: Proof| #[trigger] old(self).issued(
                        final(self), c, e as u64, now, random_bytes@, p) && p.code@ == code@
                },
    {
        let e = match self.find_employee(principal) {
            None => {
                return Err(ProofError::NotFound);
            },
            Some(e) => e,
        };
        let registered = self.employees.len();
        let ei = e as usize;
        proof {
            assert(e < registered);
            assert(ei as int == e as int);
            assert(self.employee_companies@[ei as int]@ == self.memberships_view()[e as int]);
        }
        let list = &self.employee_companies[ei];
        if company_index >= list.ids.len() as u64 {
            return Err(ProofError::IndexOutOfRange);
        }
        let ci = company_index as usize;
        let c = list.ids[ci];
        proof {
            let ms = self.memberships_view()[e as int];
            assert(ci as int == company_index as int);
            assert(ms[ci as int] == c);
            assert(ms.contains(c));
            assert(c < self.n_companies());
            assert(self.members_view()[(c as int) as u64 as int].contains((e as int) as u64));
            assert(self.members_view()[c as int].contains(e));
        }
        match self.issue(c, e, now, random_bytes) {
            Err(err) => Err(err),
            Ok(p) => Ok(p.code),
        }
    }

    /// Checks `code` at `now` and, when valid, consumes it in one step, as
    /// `ProofLedger::verify_and_consume` does.
    pub fn verify_and_consume(&mut self, code: &String, now: u64) -> (r: Result<(u64, u64), ProofError>)
        requires
            old(self).wf(),
        ensures
            final(self).wf(),
            final(self).same_registry(old(self)),
            final(self).sequences_view() == old(self).sequences_view(),
            r == consume_outcome(old(self).records(), code@, now),
            final(self).records() == consume_records(old(self).records(), code@, now),
            ledger_grows(old(self).records(), final(self).records()),
    {
        proof {
            lemma_consume_grows(self.records(), code@, now);
        }
        self.ledger.verify_and_consume(code, now)
    }

    /// `true` exactly when the verification of `code` at `now` succeeded
    /// (and consumed it).
    pub fn verify_proof(&mut self, code: &String, now: u64) -> (r: bool)
        requires
            old(self).wf(),
        ensures
            final(self).wf(),
            final(self).same_registry(old(self)),
            final(self).sequences_view() == old(self).sequences_view(),
            r == consume_outcome(old(self).records(), code@, now) is Ok,
            final(self).records() == consume_records(old(self).records(), code@, now),
            ledger_grows(old(self).records(), final(self).records()),
    {
        self.verify_and_consume(code, now).is_ok()
    }

    /// Read-only lookup of the proof with `code`; its `is_used` stays as it is.
    pub fn peek(&self, code: &String) -> (r: Result<Proof, ProofError>)
        requires
            self.wf(),
        ensures
            !has_code(self.records(), code@) ==> r == Err::<Proof, ProofError>(ProofError::NotFound),
            has_code(self.records(), code@) ==> r == Ok::<Proof, ProofError>(
                self.records()[position_of(self.records(), code@)],
            ),
    {
        self.ledger.peek(code)
    }
}

/// A code built for a company with its next sequence number is held by no
/// proof of the ledger, whatever the random segment: codes are never reused.
pub proof fn lemma_next_code_is_new(s: &ProofService, company_id: u64, segment: Seq<char>)
    requires
        s.wf(),
        company_id < s.n_companies(),
        segment.len() == SEGMENT_LEN,
    ensures
        !has_code(
            s.records(),
            code_text(company_id, segment, s.sequences_view()[company_id as int]),
        ),
{
    let ps = s.records();
    let code = code_text(company_id, segment, s.sequences_view()[company_id as int]);
    if has_code(ps, code) {
        let j = choose|j: int| 0 <= j < ps.len() && ps[j].code@ == code;
        let cj = ps[j].company_id;
        assert(code_below(ps[j].code@, cj, s.sequences_view()[cj as int]));
        let (g, n) = choose|g: Seq<char>, n: u64|
            g.len() == SEGMENT_LEN && n < s.sequences_view()[cj as int] && ps[j].code@
                == #[trigger] code_text(cj, g, n);
        lemma_code_text_injective(cj, g, n, company_id, segment, s.sequences_view()[company_id as int]);
    }
}

/// The membership index is symmetric: employee `e` is listed under company
/// `c` exactly when company `c` is listed under employee `e`.
pub proof fn lemma_membership_symmetric(s: &ProofService, c: u64, e: u64)
    requires
        s.wf(),
        c < s.n_companies(),
        e < s.n_employees(),
    ensures
        s.members_view()[c as int].contains(e) <==> s.memberships_view()[e as int].contains(c),
{
    assert(s.members_view()[c as int].contains((e as int) as u64) <==> s.memberships_view()[e as int].contains((c as int) as u64));
}


} // verus!
