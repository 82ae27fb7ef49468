use bootfrost::environment::{Host, Unattended};

#[test]
fn unattended_host_answers() {
    let mut host = Unattended;
    assert_eq!(host.read_file(&String::from("formula.txt")), None);
    assert!(host.accept(&String::from("x = a")));
    assert_eq!(host.pick(&vec![String::from("a"), String::from("b")]), Some(0));
    assert_eq!(host.pick(&Vec::new()), None);
    assert_eq!(host.questions(3), vec![0, 1, 2]);
    assert_eq!(host.questions(0), Vec::<usize>::new());
}
