use md_tools::analysis::{find_defects, scan_sorted, SiteRecord};

#[test]
fn scan_reports_vacancy_and_both_occupants() {
    let items: Vec<(i128, usize)> = vec![(0, 7), (0, 8), (1, 9), (3, 10)];
    let records = scan_sorted(&items);
    assert_eq!(
        records,
        vec![SiteRecord::Occupant(0, 8), SiteRecord::Occupant(0, 7), SiteRecord::Vacancy(2)]
    );
}

#[test]
fn scan_reports_each_occupant_of_a_crowded_site_once() {
    let items: Vec<(i128, usize)> = vec![(0, 0), (1, 1), (1, 2), (1, 3)];
    let records = scan_sorted(&items);
    assert_eq!(
        records,
        vec![SiteRecord::Occupant(1, 2), SiteRecord::Occupant(1, 1), SiteRecord::Occupant(1, 3)]
    );
}

#[test]
fn scan_of_empty_and_perfect_sequences_reports_nothing() {
    assert!(scan_sorted(&Vec::new()).is_empty());
    let items: Vec<(i128, usize)> = (0..10).map(|i| (i as i128, i)).collect();
    assert!(scan_sorted(&items).is_empty());
}

#[test]
fn scan_reports_leading_and_long_gaps() {
    let items: Vec<(i128, usize)> = vec![(2, 0), (5, 1)];
    assert_eq!(
        scan_sorted(&items),
        vec![
            SiteRecord::Vacancy(0),
            SiteRecord::Vacancy(1),
            SiteRecord::Vacancy(3),
            SiteRecord::Vacancy(4),
        ]
    );
}

fn perfect_sites(bx: i32, by: i32, bz: i32) -> Vec<(i32, i32, i32)> {
    let mut sites = Vec::new();
    for z in 0..bz {
        for y in 0..by {
            for x in 0..2 * bx {
                sites.push((x, y, z));
            }
        }
    }
    sites
}

#[test]
fn perfect_box_has_no_defects() {
    let mut sites = perfect_sites(2, 2, 2);
    sites.reverse();
    assert!(find_defects(&sites, 2, 2).is_empty());
}

#[test]
fn duplicated_site_and_empty_site_end_to_end() {
    let mut sites = perfect_sites(2, 2, 2);
    // site (1, 1, 0), index 5, is left empty; its atom moves onto (2, 0, 1), index 10
    let moved = sites.iter().position(|s| *s == (1, 1, 0)).unwrap();
    sites[moved] = (2, 0, 1);
    let first = sites.iter().position(|s| *s == (2, 0, 1)).unwrap();
    let records = find_defects(&sites, 2, 2);
    assert_eq!(records.len(), 3);
    let vacancies: Vec<&SiteRecord> = records.iter().filter(|r| matches!(r, SiteRecord::Vacancy(_))).collect();
    assert_eq!(vacancies, vec![&SiteRecord::Vacancy(5)]);
    assert!(records.contains(&SiteRecord::Occupant(10, moved)));
    assert!(records.contains(&SiteRecord::Occupant(10, first)));
}

#[test]
fn occupants_of_one_site_keep_snapshot_order() {
    let sites = vec![(1, 0, 0), (0, 0, 0), (0, 0, 0)];
    // sorted: (0, 1), (0, 2), (1, 0); the later atom of site 0 is reported first
    assert_eq!(
        find_defects(&sites, 1, 1),
        vec![SiteRecord::Occupant(0, 2), SiteRecord::Occupant(0, 1)]
    );
}
