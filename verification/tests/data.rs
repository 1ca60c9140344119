use dsgit::data::{self, Error, TypeObject};

const TEST_DATA: [(&str, &str, &str); 3] = [
    ("./hello.txt", "4963f4ed0612f7242d9d92bf59b4fb8ac8d29ec2", "Hello World!\n"),
    ("./cat.txt", "38d458fa6e384e24e7f15c5d17be0e9cee67f823", "cat cat\n"),
    ("./dogs.txt", "bdb10d71fac51e4952b37042faa62640cd7847db", "dog dog dog\n"),
];

#[test]
fn init() {
    let repo = data::init();
    assert_eq!(repo.refs.get("HEAD").unwrap(), "ref:refs/heads/main");
    assert_eq!(repo.refs.len(), 1);
    assert_eq!(repo.objects.len(), 0);
}

#[test]
fn hash_object() {
    let mut repo = data::init();
    for f in TEST_DATA.iter() {
        let hash = data::hash_object(&mut repo, f.2, TypeObject::Blob);
        assert_eq!(hash, f.1);
        assert!(repo.objects.contains(f.1));
    }
}

#[test]
fn get_object() {
    let mut repo = data::init();
    for f in TEST_DATA.iter() {
        let hash = data::hash_object(&mut repo, f.2, TypeObject::Blob);
        let obj = data::get_object(&repo, &hash, TypeObject::Blob).unwrap();
        assert_eq!(obj, f.2);
    }
}

#[test]
fn get_object_errors() {
    let mut repo = data::init();
    let oid = data::hash_object(&mut repo, "x", TypeObject::Blob);
    assert_eq!(data::get_object(&repo, "nothing", TypeObject::Blob), Err(Error::NotFound));
    assert_eq!(data::get_object(&repo, &oid, TypeObject::Tree), Err(Error::TypeMismatch));
    repo.objects.insert("a", "no separator");
    assert_eq!(data::get_object(&repo, "a", TypeObject::Blob), Err(Error::Corrupt));
    repo.objects.insert("b", "blub\0text");
    assert_eq!(data::get_object(&repo, "b", TypeObject::Blob), Err(Error::Corrupt));
}
