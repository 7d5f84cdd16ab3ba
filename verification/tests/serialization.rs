use luminal::serialization::{
    state_dict, tensor_key, Precision, SafeTensorLoader, SafeTensorSaver, SerializeModule,
    Serializer, TensorEntry,
};

#[test]
fn saver_keeps_its_path() {
    let s = SafeTensorSaver::new("weights/model.safetensors");
    assert_eq!(s.path(), "weights/model.safetensors");
}

#[test]
fn loader_keeps_its_paths_in_order() {
    let l = SafeTensorLoader::new(&["a.safetensors", "b.safetensors"]);
    assert_eq!(l.len(), 2);
    assert_eq!(l.path(0), "a.safetensors");
    assert_eq!(l.path(1), "b.safetensors");
    let owned = SafeTensorLoader::new(&[String::from("c")]);
    assert_eq!(owned.path(0), "c");
    let none: [&str; 0] = [];
    assert_eq!(SafeTensorLoader::new(&none).len(), 0);
}

struct Linear {
    weight: u32,
    bias: u32,
}

impl SerializeModule for Linear {
    fn serialize(&self, s: &mut Serializer) {
        s.tensor("weight", self.weight);
        s.tensor("bias", self.bias);
    }
}

struct Block {
    first: Linear,
    second: Linear,
    scale: u32,
}

impl SerializeModule for Block {
    fn serialize(&self, s: &mut Serializer) {
        s.module("first", &self.first);
        s.module("second", &self.second);
        s.tensor("scale", self.scale);
        s.module("", &TensorEntry { name: String::from("extra"), id: 99 });
    }
}

fn block() -> Block {
    Block {
        first: Linear { weight: 1, bias: 2 },
        second: Linear { weight: 3, bias: 4 },
        scale: 5,
    }
}

#[test]
fn serializer_joins_paths() {
    let mut s = Serializer::new();
    s.module("encoder", &block());
    assert_eq!(s.state.len(), 6);
    assert_eq!(s.get("encoder/first/weight"), Some(1));
    assert_eq!(s.get("encoder/first/bias"), Some(2));
    assert_eq!(s.get("encoder/second/weight"), Some(3));
    assert_eq!(s.get("encoder/second/bias"), Some(4));
    assert_eq!(s.get("encoder/scale"), Some(5));
    assert_eq!(s.get("encoder/extra"), Some(99));
    assert_eq!(s.get("encoder"), None);
    assert_eq!(s.key(), "");
}

#[test]
fn serializer_empty_name_uses_the_path_itself() {
    let mut s = Serializer::default();
    s.tensor("", 7);
    assert_eq!(s.get(""), Some(7));
    s.tensor("w", 8);
    assert_eq!(s.get("w"), Some(8));
    s.tensor("w", 9);
    assert_eq!(s.get("w"), Some(9));
    assert_eq!(s.state.len(), 2);
}

#[test]
fn state_dict_of_a_model() {
    let state = state_dict(&block());
    assert_eq!(state.len(), 6);
    assert_eq!(state.get("first/weight"), Some(&1));
    assert_eq!(state.get("scale"), Some(&5));
    let single = state_dict(&TensorEntry { name: String::from("t"), id: 3 });
    assert_eq!(single.get("t"), Some(&3));
}

#[test]
fn tensor_key_uses_dots() {
    assert_eq!(tensor_key("encoder/first/weight"), "encoder.first.weight");
    assert_eq!(tensor_key("plain"), "plain");
    assert_eq!(tensor_key("/a//b"), ".a..b");
}

#[test]
fn precision_widths() {
    assert_eq!(Precision::F32.width(), 4);
    assert_eq!(Precision::F16.width(), 2);
    assert_eq!(Precision::BF16.width(), 2);
    assert_eq!(Precision::F32.element_count(10), 2);
    assert_eq!(Precision::F16.element_count(10), 5);
    assert_eq!(Precision::BF16.element_count(0), 0);
}
