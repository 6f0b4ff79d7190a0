//! Tables and sparse lists of samples.
use tmu_rs::booleanizer::Number;
use tmu_rs::data::{
    assemble_numeric_csv, read_binary_csv, read_sparse_binary, split_numeric_csv, DataError, DataErrorKind,
    ParsedLine,
};

fn numeric(text: &str) -> Result<(Vec<Vec<f64>>, Vec<usize>), DataError> {
    let lines: Vec<ParsedLine> = split_numeric_csv(text)
        .into_iter()
        .map(|l| {
            let values: Option<Vec<Number>> = l
                .columns
                .iter()
                .map(|c| c.iter().collect::<String>().parse::<f64>().ok().map(|x| Number(x.to_bits())))
                .collect();
            ParsedLine { line: l.line, values }
        })
        .collect();
    assemble_numeric_csv(&lines).map(|(xs, ys)| {
        (xs.iter().map(|r| r.iter().map(|x| f64::from_bits(x.0)).collect()).collect(), ys)
    })
}

#[test]
fn binary_tables_are_read() {
    let text = "a,b,label\n1,0,2\r\n\n 0 , -3 , 1 \nlonely\n0,0,0";
    assert_eq!(read_binary_csv(text), Ok((vec![vec![1, 0], vec![0, 1], vec![0, 0]], vec![2, 1, 0])));
    assert_eq!(read_binary_csv(""), Ok((vec![], vec![])));
}

#[test]
fn a_numeric_first_line_is_no_heading() {
    assert_eq!(read_binary_csv("1,1\n0,0\n"), Ok((vec![vec![1], vec![0]], vec![1, 0])));
}

#[test]
fn lines_of_a_binary_table_that_cannot_be_read_are_named() {
    let err = |kind, line| Err(DataError { kind, line });
    assert_eq!(read_binary_csv("1,0\n1,x,1\n"), err(DataErrorKind::NotInteger, 2));
    assert_eq!(read_binary_csv("1,0\n\n1,0,-1\n"), err(DataErrorKind::BadLabel, 3));
    assert_eq!(read_binary_csv("1,0,1\n1.5,0,1"), err(DataErrorKind::NotInteger, 2));
    assert_eq!(read_binary_csv("1,b,0"), err(DataErrorKind::NotInteger, 1));
    assert_eq!(read_binary_csv("99999999999999999999,0\n1,0"), Ok((vec![vec![1]], vec![0])));
    assert_eq!(read_binary_csv("1,0\n99999999999999999999,0"), err(DataErrorKind::NotInteger, 2));
}

#[test]
fn signs_are_part_of_integers() {
    assert_eq!(read_binary_csv("+1,+0,+4\n-0,-9,2"), Ok((vec![vec![1, 0], vec![0, 1]], vec![4, 2])));
    assert_eq!(
        read_binary_csv("0,1\n+,1"),
        Err(DataError { kind: DataErrorKind::NotInteger, line: 2 })
    );
}

#[test]
fn sparse_lists_are_read() {
    let text = "1 0 3\n\n0\n2 9 1 1\n";
    assert_eq!(
        read_sparse_binary(text, 4),
        Ok((vec![vec![1, 0, 0, 1], vec![0, 0, 0, 0], vec![0, 1, 0, 0]], vec![1, 0, 2]))
    );
}

#[test]
fn lines_of_a_sparse_list_that_cannot_be_read_are_named() {
    assert_eq!(read_sparse_binary("x 1", 4), Err(DataError { kind: DataErrorKind::BadLabel, line: 1 }));
    assert_eq!(read_sparse_binary("1 1\n0 -2", 4), Err(DataError { kind: DataErrorKind::BadIndex, line: 2 }));
    assert_eq!(read_sparse_binary("1 1\n0 1.0", 4), Err(DataError { kind: DataErrorKind::BadIndex, line: 2 }));
}

#[test]
fn numeric_tables_are_read() {
    let text = "x,y,class\n1.5, -2e3 ,1\n\n0.25,3,1.6\n7,8,-4\n";
    assert_eq!(
        numeric(text),
        Ok((vec![vec![1.5, -2000.0], vec![0.25, 3.0], vec![7.0, 8.0]], vec![1, 2, 0]))
    );
    assert_eq!(
        numeric("1,2\nfoo,3\n"),
        Err(DataError { kind: DataErrorKind::NotNumeric, line: 2 })
    );
}

#[test]
fn labels_are_rounded_as_doubles_are() {
    for x in [0.0f64, 0.49, 0.5, 1.5, 2.4999, 2.5, 1e9, -0.5, -3.0, 1e300, f64::INFINITY, f64::NAN, 4503599627370495.5] {
        let (_, ys) = assemble_numeric_csv(&[ParsedLine {
            line: 3,
            values: Some(vec![Number(0), Number(x.to_bits())]),
        }])
        .unwrap();
        assert_eq!(ys, vec![x.round() as usize], "{x}");
    }
}
