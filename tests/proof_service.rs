use proof_ledger::code::{generate_random_code, mint_code, SEGMENT_LEN};
use proof_ledger::error::ProofError;
use proof_ledger::index::IDList;
use proof_ledger::ledger::{Proof, ProofLedger};
use proof_ledger::service::{Company, ProofService, DEFAULT_VALIDITY};
use proof_ledger::text::{push_decimal, StorableString};

fn bytes(seed: u8) -> Vec<u8> {
    (0..32u8).map(|i| i.wrapping_mul(7).wrapping_add(seed)).collect()
}

/// A service with an admin, one company and one member; returns the ids.
fn setup(validity: u64) -> (ProofService, u64, u64, u64) {
    let mut s = ProofService::new(validity);
    let admin = s.create_employee("admin-a".to_string(), "Ada".to_string(), 1).unwrap();
    let company: Company = s.create_company("C1".to_string(), admin.id, 2).unwrap();
    let emp = s.create_employee("emp-e1".to_string(), "Eve".to_string(), 3).unwrap();
    s.add_membership(company.id, emp.id).unwrap();
    (s, company.id, admin.id, emp.id)
}

fn segment_ok(seg: &str) -> bool {
    seg.len() == SEGMENT_LEN
        && seg.chars().all(|c| c.is_ascii_alphanumeric() && !"0O1Il".contains(c))
}

#[test]
fn request_and_verify_once() {
    let (mut s, c1, _, _) = setup(DEFAULT_VALIDITY);
    let now = 1_000;
    let code = s.request_proof(&"emp-e1".to_string(), 0, now, &bytes(3)).unwrap();
    let parts: Vec<&str> = code.split('-').collect();
    assert_eq!(parts.len(), 3);
    assert_eq!(parts[0], c1.to_string());
    assert!(segment_ok(parts[1]));
    assert_eq!(parts[2], "0");
    assert!(s.verify_proof(&code, now + 5));
    assert!(!s.verify_proof(&code, now + 6));
    assert_eq!(s.verify_and_consume(&code, now + 7), Err(ProofError::AlreadyUsed));
}

#[test]
fn expired_proof_is_rejected_and_left_unused() {
    let (mut s, c1, _, e1) = setup(10);
    let p = s.issue(c1, e1, 100, &bytes(1)).unwrap();
    assert_eq!(p.expires_at, 110);
    assert!(!s.verify_proof(&p.code, 111));
    assert_eq!(s.verify_and_consume(&p.code, 111), Err(ProofError::Expired));
    let seen: Proof = s.peek(&p.code).unwrap();
    assert!(!seen.is_used);
    assert_eq!(seen.expires_at, 110);
}

#[test]
fn codes_are_unique_with_repeated_randomness() {
    let (mut s, c1, _, e1) = setup(DEFAULT_VALIDITY);
    let r = bytes(9);
    let mut codes = Vec::new();
    for i in 0..5u64 {
        let p = s.issue(c1, e1, 10 + i, &r).unwrap();
        assert!(p.code.ends_with(&format!("-{}", i)));
        codes.push(p.code);
    }
    for i in 0..codes.len() {
        for j in 0..codes.len() {
            if i != j {
                assert_ne!(codes[i], codes[j]);
            }
        }
    }
}

#[test]
fn many_verifications_succeed_once() {
    let (mut s, c1, _, e1) = setup(DEFAULT_VALIDITY);
    let p = s.issue(c1, e1, 50, &bytes(2)).unwrap();
    let results: Vec<Result<(u64, u64), ProofError>> =
        (0..8).map(|k| s.verify_and_consume(&p.code, 50 + k)).collect();
    assert_eq!(results[0], Ok((c1, e1)));
    for r in &results[1..] {
        assert_eq!(*r, Err(ProofError::AlreadyUsed));
    }
}

#[test]
fn expiry_is_final_even_after_use() {
    let (mut s, c1, _, e1) = setup(10);
    let p = s.issue(c1, e1, 0, &bytes(4)).unwrap();
    assert!(s.verify_proof(&p.code, 5));
    for t in [11u64, 12, 1_000, u64::MAX] {
        assert_eq!(s.verify_and_consume(&p.code, t), Err(ProofError::Expired));
    }
    assert!(s.peek(&p.code).unwrap().is_used);
}

#[test]
fn membership_index_stays_symmetric() {
    let (mut s, c1, admin, e1) = setup(DEFAULT_VALIDITY);
    let c2 = s.create_company("C2".to_string(), admin, 4).unwrap().id;
    s.add_membership(c2, e1).unwrap();
    s.add_membership(c2, admin).unwrap();
    s.add_membership(c2, e1).unwrap();
    assert_eq!(s.list_companies_of(e1).unwrap(), vec![c1, c2]);
    assert_eq!(s.list_employees_of(c2).unwrap(), vec![e1, admin]);
    s.remove_membership(c1, e1).unwrap();
    s.remove_membership(c1, e1).unwrap();
    assert_eq!(s.list_companies_of(e1).unwrap(), vec![c2]);
    assert_eq!(s.list_employees_of(c1).unwrap(), Vec::<u64>::new());
    for c in [c1, c2] {
        for e in [admin, e1] {
            let forward = s.list_employees_of(c).unwrap().contains(&e);
            let backward = s.list_companies_of(e).unwrap().contains(&c);
            assert_eq!(forward, backward);
            assert_eq!(s.is_member(c, e), Ok(forward));
        }
    }
}

#[test]
fn non_member_cannot_get_a_proof() {
    let (mut s, c1, _, _) = setup(DEFAULT_VALIDITY);
    let outsider = s.create_employee("emp-x".to_string(), "Xan".to_string(), 5).unwrap();
    let r = s.request_proof(&"emp-x".to_string(), 0, 10, &bytes(5));
    assert_eq!(r, Err(ProofError::IndexOutOfRange));
    let r = s.issue(c1, outsider.id, 10, &bytes(5));
    assert!(matches!(r, Err(ProofError::Unauthorized)));
    // The would-be first code of the company was never recorded.
    let seg = generate_random_code(&bytes(5)).unwrap();
    let code = mint_code(c1, &seg, 0);
    assert!(matches!(s.peek(&code), Err(ProofError::NotFound)));
}

#[test]
fn unknown_records_are_not_found() {
    let (mut s, c1, _, e1) = setup(DEFAULT_VALIDITY);
    assert_eq!(s.add_membership(c1 + 10, e1), Err(ProofError::NotFound));
    assert_eq!(s.add_membership(c1, e1 + 10), Err(ProofError::NotFound));
    assert_eq!(s.remove_membership(c1 + 10, e1), Err(ProofError::NotFound));
    assert_eq!(s.grant_admin(c1, e1 + 10), Err(ProofError::NotFound));
    assert_eq!(s.is_member(c1 + 10, e1), Err(ProofError::NotFound));
    assert_eq!(s.list_my_companies(&"nobody".to_string()), Err(ProofError::NotFound));
    assert_eq!(s.request_proof(&"nobody".to_string(), 0, 1, &bytes(0)), Err(ProofError::NotFound));
    assert!(matches!(s.issue(c1 + 10, e1, 1, &bytes(0)), Err(ProofError::NotFound)));
    assert!(matches!(s.create_company("C9".to_string(), 99, 1), Err(ProofError::NotFound)));
    assert!(!s.verify_proof(&"1-ABCDEFGHJK-0".to_string(), 1));
    assert_eq!(s.verify_and_consume(&"1-ABCDEFGHJK-0".to_string(), 1), Err(ProofError::NotFound));
    assert!(s.get_company(c1 + 10).is_none());
    assert!(s.get_employee(e1 + 10).is_none());
}

#[test]
fn duplicate_principal_is_refused() {
    let (mut s, _, _, _) = setup(DEFAULT_VALIDITY);
    let r = s.create_employee("emp-e1".to_string(), "Other".to_string(), 9);
    assert!(matches!(r, Err(ProofError::AlreadyExists)));
}

#[test]
fn deactivated_company_refuses_members_and_proofs() {
    let (mut s, c1, admin, e1) = setup(DEFAULT_VALIDITY);
    let p = s.issue(c1, e1, 0, &bytes(6)).unwrap();
    s.deactivate_company(c1).unwrap();
    assert!(!s.get_company(c1).unwrap().is_active);
    assert_eq!(s.add_membership(c1, admin), Err(ProofError::Unauthorized));
    assert!(matches!(s.issue(c1, e1, 1, &bytes(6)), Err(ProofError::Unauthorized)));
    assert_eq!(s.request_proof(&"emp-e1".to_string(), 0, 1, &bytes(6)), Err(ProofError::Unauthorized));
    // Proofs issued before stay valid until they expire.
    assert!(s.verify_proof(&p.code, 2));
    assert_eq!(s.deactivate_company(c1 + 5), Err(ProofError::NotFound));
}

#[test]
fn short_randomness_fails_generation() {
    let (mut s, _, _, _) = setup(DEFAULT_VALIDITY);
    let r = s.request_proof(&"emp-e1".to_string(), 0, 1, &vec![1u8; SEGMENT_LEN - 1]);
    assert_eq!(r, Err(ProofError::GenerationExhausted));
    assert!(generate_random_code(&vec![]).is_none());
}

#[test]
fn admin_relation_is_kept() {
    let (mut s, c1, admin, e1) = setup(DEFAULT_VALIDITY);
    assert_eq!(s.list_administered_by(admin).unwrap(), vec![c1]);
    assert_eq!(s.list_administered_by(e1).unwrap(), Vec::<u64>::new());
    s.grant_admin(c1, e1).unwrap();
    s.grant_admin(c1, e1).unwrap();
    assert_eq!(s.list_administered_by(e1).unwrap(), vec![c1]);
    s.revoke_admin(c1, admin).unwrap();
    assert_eq!(s.list_administered_by(admin).unwrap(), Vec::<u64>::new());
    assert_eq!(s.get_company(c1).unwrap().admin_id, admin);
}

#[test]
fn list_my_companies_follows_memberships() {
    let (mut s, c1, admin, _) = setup(DEFAULT_VALIDITY);
    let c2 = s.create_company("C2".to_string(), admin, 4).unwrap().id;
    s.add_membership(c2, 1).unwrap();
    assert_eq!(s.list_my_companies(&"emp-e1".to_string()).unwrap(), vec![c1, c2]);
    let code = s.request_proof(&"emp-e1".to_string(), 1, 7, &bytes(8)).unwrap();
    assert!(code.starts_with(&format!("{}-", c2)));
    let p = s.peek(&code).unwrap();
    assert_eq!((p.company_id, p.employee_id, p.created_at), (c2, 1, 7));
    assert_eq!(s.request_proof(&"emp-e1".to_string(), 2, 7, &bytes(8)), Err(ProofError::IndexOutOfRange));
}

#[test]
fn expiry_saturates_at_end_of_clock() {
    let (mut s, c1, _, e1) = setup(DEFAULT_VALIDITY);
    let p = s.issue(c1, e1, u64::MAX - 1, &bytes(0)).unwrap();
    assert_eq!(p.expires_at, u64::MAX);
    let q = s.issue(c1, e1, 5, &bytes(0)).unwrap();
    assert_eq!(q.expires_at, 5 + DEFAULT_VALIDITY);
    assert_eq!(s.proof_validity(), DEFAULT_VALIDITY);
}

#[test]
fn code_text_is_exact() {
    let seg: Vec<char> = "ABCDEFGHJK".chars().collect();
    assert_eq!(mint_code(12, &seg, 7), "12-ABCDEFGHJK-7");
    assert_eq!(mint_code(0, &seg, 1_000_000), "0-ABCDEFGHJK-1000000");
    let mut out = vec!['x'];
    push_decimal(u64::MAX, &mut out);
    let text: String = out.into_iter().collect();
    assert_eq!(text, format!("x{}", u64::MAX));
}

#[test]
fn segment_symbols_follow_the_bytes() {
    let raw: Vec<u8> = vec![0, 1, 2, 23, 24, 48, 49, 56, 57, 255, 99];
    let seg: String = generate_random_code(&raw).unwrap().into_iter().collect();
    assert_eq!(seg, "ABCZaz29Ad");
}

#[test]
fn id_list_keeps_order_without_repeats() {
    let mut l = IDList::new();
    for x in [5u64, 3, 5, 9, 3] {
        l.add(x);
    }
    assert_eq!(l.to_vec(), vec![5, 3, 9]);
    l.remove(3);
    l.remove(42);
    assert_eq!(l.to_vec(), vec![5, 9]);
    assert!(l.contains(9));
    assert_eq!(l.find(9), Some(1));
    assert_eq!(l.find(3), None);
}

#[test]
fn ledger_insert_and_consume() {
    let mut ledger = ProofLedger::new();
    ledger.insert(Proof {
        code: "3-ABCDEFGHJK-0".to_string(),
        company_id: 3,
        employee_id: 4,
        created_at: 0,
        expires_at: 10,
        is_used: false,
    });
    assert_eq!(ledger.len(), 1);
    assert!(ledger.contains_code(&"3-ABCDEFGHJK-0".to_string()));
    assert_eq!(ledger.verify_and_consume(&"3-ABCDEFGHJK-0".to_string(), 10), Ok((3, 4)));
    assert_eq!(ledger.verify_and_consume(&"3-ABCDEFGHJK-0".to_string(), 10), Err(ProofError::AlreadyUsed));
    assert_eq!(ledger.verify_and_consume(&"3-ABCDEFGHJK-0".to_string(), 11), Err(ProofError::Expired));
}

#[test]
fn company_and_employee_views_of_the_index() {
    let (mut s, c1, admin, e1) = setup(DEFAULT_VALIDITY);
    let company = s.get_company(c1).unwrap();
    let boss = s.get_employee(admin).unwrap();
    assert_eq!(company.add_employee(&mut s, &boss), Ok(()));
    let members = company.list_my_employee(&s).unwrap();
    let names: Vec<String> = members.iter().map(|m| m.full_name.clone()).collect();
    assert_eq!(names, vec!["Eve".to_string(), "Ada".to_string()]);
    assert_eq!(company.remove_employee(&mut s, e1), Ok(()));
    assert_eq!(company.remove_employee(&mut s, e1 + 40), Err(ProofError::NotFound));
    let eve = s.get_employee(e1).unwrap();
    assert_eq!(eve.list_comp(&s).unwrap(), Vec::<u64>::new());
    assert_eq!(boss.list_comp(&s).unwrap(), vec![c1]);
    let ghost_company = Company { id: 77, name: "G".to_string(), admin_id: 0, created_at: 0, is_active: true };
    assert!(matches!(ghost_company.list_my_employee(&s), Err(ProofError::NotFound)));
}

#[test]
fn storable_keys_compare_by_text() {
    let a = StorableString::new("k-1".to_string());
    let b = StorableString::new("k-1".to_string());
    let c = StorableString::new("k-2".to_string());
    assert!(a.same_key(&b));
    assert!(!a.same_key(&c));
    assert_eq!(a.str, "k-1");
}

#[test]
fn counts_follow_registrations() {
    let (mut s, _, admin, _) = setup(DEFAULT_VALIDITY);
    assert_eq!((s.company_count(), s.employee_count()), (1, 2));
    s.create_company("C2".to_string(), admin, 4).unwrap();
    assert_eq!((s.company_count(), s.employee_count()), (2, 2));
    assert_eq!(s.find_employee(&"emp-e1".to_string()), Some(1));
    assert_eq!(s.find_employee(&"nobody".to_string()), None);
}

#[test]
fn readding_a_member_of_a_deactivated_company_is_a_no_op() {
    let (mut s, c1, admin, e1) = setup(DEFAULT_VALIDITY);
    s.deactivate_company(c1).unwrap();
    assert_eq!(s.add_membership(c1, e1), Ok(()));
    assert_eq!(s.list_employees_of(c1).unwrap(), vec![e1]);
    assert_eq!(s.list_companies_of(e1).unwrap(), vec![c1]);
    assert_eq!(s.add_membership(c1, admin), Err(ProofError::Unauthorized));
    let company = s.get_company(c1).unwrap();
    let eve = s.get_employee(e1).unwrap();
    assert_eq!(company.add_employee(&mut s, &eve), Ok(()));
    assert_eq!(s.list_employees_of(c1).unwrap(), vec![e1]);
}

#[test]
fn failed_request_reserves_no_sequence_number() {
    let (mut s, c1, _, _) = setup(DEFAULT_VALIDITY);
    let short = vec![7u8; SEGMENT_LEN - 1];
    assert_eq!(s.request_proof(&"emp-e1".to_string(), 0, 1, &short), Err(ProofError::GenerationExhausted));
    assert_eq!(s.request_proof(&"emp-e1".to_string(), 3, 1, &bytes(1)), Err(ProofError::IndexOutOfRange));
    let code = s.request_proof(&"emp-e1".to_string(), 0, 1, &bytes(1)).unwrap();
    assert!(code.starts_with(&format!("{}-", c1)));
    assert!(code.ends_with("-0"));
}
