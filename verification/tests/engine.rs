use gtf_tpm_combinator::engine::{run, run_lines, EngineError};

fn chars(s: &str) -> Vec<char> {
    s.chars().collect()
}

fn table(annotation: &str, matrix: &str, tier: u8) -> String {
    let out = run(&chars(annotation), &chars(matrix), 1, tier).expect("the matrix has a header");
    out.iter().collect()
}

const G1: &str = "chr7\tsrc\tgene\t100\t200\t.\t+\t.\tgene_id \"G1\";\n";

const GENOME: &str = "\
##description: a small annotation\n\
chr2\tsrc\tgene\t500\t900\t.\t+\t.\tgene_id \"A\"; gene_name \"a\";\n\
chr10\tsrc\tgene\t50\t90\t.\t-\t.\tgene_id \"B\"; gene_name \"b\";\n\
chr2\tsrc\tgene\t90\t400\t.\t+\t.\tgene_id \"C\";\n\
chrX\tsrc\tgene\t10\t20\t.\t+\t.\tgene_id \"D\";\n\
chrY\tsrc\tgene\t10\t20\t.\t+\t.\tgene_id \"E\";\n\
chrM\tsrc\tgene\t10\t20\t.\t+\t.\tgene_id \"F\";\n\
scaffold_9\tsrc\tgene\t1\t2\t.\t+\t.\tgene_id \"S\";\n\
chrUn\tsrc\tgene\t1\t2\t.\t+\t.\tgene_id \"U\";\n\
chr23\tsrc\tgene\t1\t2\t.\t+\t.\tgene_id \"W\";\n\
chr2\tsrc\texon\t1\t2\t.\t+\t.\tgene_id \"EXON\";\n";

const MATRIX: &str = "gene_id\ts1\ts2\nU\t1\t2\nS\t1\t2\nF\t1\t2\nE\t1\t2\nD\t1\t2\nB\t1\t2\nA\t1\t2\nC\t1\t2\nW\t1\t2\nNONE\t1\t2\n";

#[test]
fn known_gene_is_joined_with_its_coordinates() {
    assert_eq!(
        table(G1, "gene_id\tsample1\nG1\t5.2\n", 0),
        "#Chr\tstart\tend\tgene_id\tsample1\nchr7\t100\t200\tG1\t5.2\n"
    );
}

#[test]
fn unknown_gene_is_dropped_at_tier_one() {
    assert_eq!(table(G1, "gene_id\tsample1\nG2\t3.1\n", 1), "#Chr\tstart\tend\tgene_id\tsample1\n");
}

#[test]
fn unknown_gene_has_empty_coordinates_at_tier_zero() {
    assert_eq!(
        table(G1, "gene_id\tsample1\nG2\t3.1\n", 0),
        "#Chr\tstart\tend\tgene_id\tsample1\n\t\t\tG2\t3.1\n"
    );
}

#[test]
fn unknown_gene_is_absent_from_tier_one_up() {
    for tier in 1..=4u8 {
        assert_eq!(table(G1, "gene_id\tsample1\nG2\t3.1\n", tier), "#Chr\tstart\tend\tgene_id\tsample1\n");
    }
}

#[test]
fn sex_chromosome_is_kept_at_tier_two() {
    let annotation = "chrX\tsrc\tgene\t5\t9\t.\t+\t.\tgene_id \"GX\";\n";
    assert_eq!(table(annotation, "id\tv\nGX\t1\n", 2), "#Chr\tstart\tend\tid\tv\nchrX\t5\t9\tGX\t1\n");
}

#[test]
fn sex_chromosome_is_dropped_at_tier_three() {
    let annotation = "chrX\tsrc\tgene\t5\t9\t.\t+\t.\tgene_id \"GX\";\n";
    assert_eq!(table(annotation, "id\tv\nGX\t1\n", 3), "#Chr\tstart\tend\tid\tv\n");
    assert_eq!(table(annotation, "id\tv\nGX\t1\n", 4), "#Chr\tstart\tend\tid\tv\n");
}

#[test]
fn scaffold_is_dropped_from_tier_two_up() {
    let annotation = "scaffold_9\tsrc\tgene\t5\t9\t.\t+\t.\tgene_id \"GS\";\n";
    for tier in 2..=4u8 {
        assert_eq!(table(annotation, "id\tv\nGS\t1\n", tier), "#Chr\tstart\tend\tid\tv\n");
    }
    for tier in 0..=1u8 {
        assert_eq!(
            table(annotation, "id\tv\nGS\t1\n", tier),
            "#Chr\tstart\tend\tid\tv\nscaffold_9\t5\t9\tGS\t1\n"
        );
    }
}

#[test]
fn tier_zero_keeps_and_orders_every_row() {
    assert_eq!(
        table(GENOME, MATRIX, 0),
        "#Chr\tstart\tend\tgene_id\ts1\ts2\n\
         chr2\t90\t400\tC\t1\t2\n\
         chr2\t500\t900\tA\t1\t2\n\
         chr10\t50\t90\tB\t1\t2\n\
         chr23\t1\t2\tW\t1\t2\n\
         chrX\t10\t20\tD\t1\t2\n\
         chrY\t10\t20\tE\t1\t2\n\
         chrM\t10\t20\tF\t1\t2\n\
         \t\t\tNONE\t1\t2\n\
         chrUn\t1\t2\tU\t1\t2\n\
         scaffold_9\t1\t2\tS\t1\t2\n"
    );
}

#[test]
fn tier_one_drops_rows_without_coordinates() {
    assert_eq!(
        table(GENOME, MATRIX, 1),
        "#Chr\tstart\tend\tgene_id\ts1\ts2\n\
         chr2\t90\t400\tC\t1\t2\n\
         chr2\t500\t900\tA\t1\t2\n\
         chr10\t50\t90\tB\t1\t2\n\
         chr23\t1\t2\tW\t1\t2\n\
         chrX\t10\t20\tD\t1\t2\n\
         chrY\t10\t20\tE\t1\t2\n\
         chrM\t10\t20\tF\t1\t2\n\
         chrUn\t1\t2\tU\t1\t2\n\
         scaffold_9\t1\t2\tS\t1\t2\n"
    );
}

#[test]
fn tier_two_drops_names_without_chr() {
    assert_eq!(
        table(GENOME, MATRIX, 2),
        "#Chr\tstart\tend\tgene_id\ts1\ts2\n\
         chr2\t90\t400\tC\t1\t2\n\
         chr2\t500\t900\tA\t1\t2\n\
         chr10\t50\t90\tB\t1\t2\n\
         chr23\t1\t2\tW\t1\t2\n\
         chrX\t10\t20\tD\t1\t2\n\
         chrY\t10\t20\tE\t1\t2\n\
         chrM\t10\t20\tF\t1\t2\n\
         chrUn\t1\t2\tU\t1\t2\n"
    );
}

#[test]
fn tier_three_drops_x_y_and_m() {
    assert_eq!(
        table(GENOME, MATRIX, 3),
        "#Chr\tstart\tend\tgene_id\ts1\ts2\n\
         chr2\t90\t400\tC\t1\t2\n\
         chr2\t500\t900\tA\t1\t2\n\
         chr10\t50\t90\tB\t1\t2\n\
         chr23\t1\t2\tW\t1\t2\n\
         chrUn\t1\t2\tU\t1\t2\n"
    );
}

#[test]
fn tier_four_keeps_autosomes_without_prefix() {
    assert_eq!(
        table(GENOME, MATRIX, 4),
        "#Chr\tstart\tend\tgene_id\ts1\ts2\n\
         2\t90\t400\tC\t1\t2\n\
         2\t500\t900\tA\t1\t2\n\
         10\t50\t90\tB\t1\t2\n"
    );
}

#[test]
fn each_tier_keeps_a_subset_of_the_tier_below() {
    let keys = |tier: u8| -> Vec<String> {
        table(GENOME, MATRIX, tier)
            .lines()
            .skip(1)
            .map(|line| line.split('\t').nth(3).unwrap().to_string())
            .collect()
    };
    for tier in 0..4u8 {
        let looser = keys(tier);
        for key in keys(tier + 1) {
            assert!(looser.contains(&key));
        }
    }
}

#[test]
fn two_runs_give_the_same_table() {
    for tier in 0..=4u8 {
        assert_eq!(table(GENOME, MATRIX, tier), table(GENOME, MATRIX, tier));
    }
}

#[test]
fn thread_count_has_no_effect() {
    let one = run(&chars(GENOME), &chars(MATRIX), 1, 2).unwrap();
    let many = run(&chars(GENOME), &chars(MATRIX), 16, 2).unwrap();
    assert_eq!(one, many);
}

#[test]
fn empty_matrix_is_an_error() {
    assert!(matches!(run(&chars(G1), &chars(""), 1, 0), Err(EngineError::EmptyMatrix)));
    assert!(matches!(run_lines(&vec![chars(G1)], &vec![], 0), Err(EngineError::EmptyMatrix)));
}

#[test]
fn header_alone_gives_header_alone() {
    assert_eq!(table(G1, "gene_id\tsample1", 4), "#Chr\tstart\tend\tgene_id\tsample1\n");
}

#[test]
fn blank_matrix_lines_are_skipped() {
    assert_eq!(
        table(G1, "gene_id\tsample1\n\n  \t \nG1\t5.2\n\u{00A0}\u{3000}\n", 0),
        "#Chr\tstart\tend\tgene_id\tsample1\nchr7\t100\t200\tG1\t5.2\n"
    );
}

#[test]
fn carriage_returns_before_line_feeds_are_dropped() {
    let annotation = "chr7\tsrc\tgene\t100\t200\t.\t+\t.\tgene_id \"G1\";\r\n";
    assert_eq!(
        table(annotation, "gene_id\tsample1\r\nG1\t5.2\r\n", 4),
        "#Chr\tstart\tend\tgene_id\tsample1\n7\t100\t200\tG1\t5.2\n"
    );
}

#[test]
fn later_annotation_line_replaces_earlier() {
    let annotation = "chr1\tsrc\tgene\t1\t2\t.\t+\t.\tgene_id \"G1\";\nchr3\tsrc\tgene\t7\t8\t.\t+\t.\tgene_id \"G1\";\n";
    assert_eq!(table(annotation, "id\nG1\n", 0), "#Chr\tstart\tend\tid\nchr3\t7\t8\tG1\n");
}

#[test]
fn starts_order_by_number_and_bad_starts_count_as_zero() {
    let annotation = "\
chr1\tsrc\tgene\t100\t200\t.\t+\t.\tgene_id \"A\";\n\
chr1\tsrc\tgene\t9\t20\t.\t+\t.\tgene_id \"B\";\n\
chr1\tsrc\tgene\tabc\t20\t.\t+\t.\tgene_id \"C\";\n\
chr1\tsrc\tgene\t+5\t20\t.\t+\t.\tgene_id \"D\";\n";
    assert_eq!(
        table(annotation, "id\nA\nB\nC\nD\n", 4),
        "#Chr\tstart\tend\tid\n1\tabc\t20\tC\n1\t+5\t20\tD\n1\t9\t20\tB\n1\t100\t200\tA\n"
    );
}

#[test]
fn rows_with_equal_keys_keep_their_order() {
    let annotation = "\
chr1\tsrc\tgene\t5\t6\t.\t+\t.\tgene_id \"A\";\n\
chr1\tsrc\tgene\t5\t7\t.\t+\t.\tgene_id \"B\";\n";
    assert_eq!(table(annotation, "id\nB\nA\n", 0), "#Chr\tstart\tend\tid\nchr1\t5\t7\tB\nchr1\t5\t6\tA\n");
    assert_eq!(table(annotation, "id\nA\nB\n", 0), "#Chr\tstart\tend\tid\nchr1\t5\t6\tA\nchr1\t5\t7\tB\n");
}

#[test]
fn tier_above_four_keeps_every_row() {
    assert_eq!(table(GENOME, MATRIX, 5), table(GENOME, MATRIX, 0));
}

#[test]
fn empty_coordinate_in_annotation_counts_as_missing() {
    let annotation = "chr7\tsrc\tgene\t\t200\t.\t+\t.\tgene_id \"G1\";\n";
    assert_eq!(table(annotation, "id\nG1\n", 0), "#Chr\tstart\tend\tid\nchr7\t\t200\tG1\n");
    assert_eq!(table(annotation, "id\nG1\n", 1), "#Chr\tstart\tend\tid\n");
}

#[test]
fn run_is_reachable_from_the_crate_root() {
    let out = gtf_tpm_combinator::run(&chars(G1), &chars("id\nG1\n"), 4, 4).unwrap();
    assert_eq!(out.iter().collect::<String>(), "#Chr\tstart\tend\tid\n7\t100\t200\tG1\n");
}
