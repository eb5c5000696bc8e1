use dyck::{all_trees, left_branch_big, left_branch_u512, left_branch_u64};

#[test]
fn test_for_u64() {
    let trees = all_trees();
    let now = std::time::Instant::now();
    for each in trees {
        std::hint::black_box(left_branch_u64(each as u64));
    }
    println!("time : {} micros", now.elapsed().as_micros())
}

#[test]
fn test_for_biguint() {
    let trees = all_trees();
    let now = std::time::Instant::now();
    for each in trees {
        std::hint::black_box(left_branch_big(&vec![each]));
    }
    println!("time : {} micros", now.elapsed().as_micros())
}

#[test]
fn test_for_u512() {
    let trees = all_trees();
    let now = std::time::Instant::now();
    for each in trees {
        let mut bytes = (each as u64).to_le_bytes().to_vec();
        bytes.resize(64, 0);
        std::hint::black_box(left_branch_u512(&bytes));
    }
    println!("time : {} micros", now.elapsed().as_micros())
}
