use device_tree::dtb_reader::{DtbReader, DtbStructIterator};
use device_tree::error::Error;
use device_tree::struct_item::StructItem;

/// A structure block and a strings block under construction.
struct Tree {
    items: Vec<u8>,
    strings: Vec<u8>,
}

impl Tree {
    fn new() -> Tree {
        Tree { items: Vec::new(), strings: Vec::new() }
    }

    fn number(&mut self, value: u32) {
        self.items.extend_from_slice(&value.to_be_bytes());
    }

    fn pad(&mut self) {
        while self.items.len() % 4 != 0 {
            self.items.push(0);
        }
    }

    fn begin(&mut self, name: &str) {
        self.number(1);
        self.items.extend_from_slice(name.as_bytes());
        self.items.push(0);
        self.pad();
    }

    fn property(&mut self, name: &str, value: &[u8]) {
        let name_offset = self.strings.len() as u32;
        self.strings.extend_from_slice(name.as_bytes());
        self.strings.push(0);
        self.number(3);
        self.number(value.len() as u32);
        self.number(name_offset);
        self.items.extend_from_slice(value);
        self.pad();
    }

    fn end(&mut self) {
        self.number(2);
    }

    fn finish(mut self) -> Vec<u8> {
        self.number(9);
        let struct_offset = 56u32;
        let struct_size = self.items.len() as u32;
        let strings_offset = struct_offset + struct_size;
        let strings_size = self.strings.len() as u32;
        let fields = [
            0xd00dfeedu32,
            strings_offset + strings_size,
            struct_offset,
            strings_offset,
            40,
            17,
            16,
            0,
            strings_size,
            struct_size,
        ];
        let mut blob = Vec::new();
        for field in fields.iter() {
            blob.extend_from_slice(&field.to_be_bytes());
        }
        blob.extend_from_slice(&[0; 16]);
        blob.extend_from_slice(&self.items);
        blob.extend_from_slice(&self.strings);
        blob
    }
}

fn cells(values: &[u32]) -> Vec<u8> {
    let mut bytes = Vec::new();
    for value in values {
        bytes.extend_from_slice(&value.to_be_bytes());
    }
    bytes
}

fn sample() -> Vec<u8> {
    let mut tree = Tree::new();
    tree.begin("");
    tree.begin("node1");
    tree.property("a-string-property", b"A string\0");
    tree.property("a-string-list-property", b"first string\0second string\0");
    tree.property("a-byte-data-property", &[0x01, 0x23, 0x34, 0x56]);
    tree.begin("child-node1");
    tree.property("first-child-property", &[]);
    tree.property("second-child-property", &cells(&[1]));
    tree.property("a-string-property", b"Hello, world\0");
    tree.end();
    tree.begin("child-node2");
    tree.end();
    tree.end();
    tree.begin("node2");
    tree.property("an-empty-property", &[]);
    tree.property("a-cell-property", &cells(&[1, 2, 3, 4]));
    tree.begin("child-node1");
    tree.end();
    tree.end();
    tree.end();
    tree.finish()
}

fn assert_node(iter: &mut DtbStructIterator, name: &str) {
    let item = iter.next().unwrap();
    assert!(item.is_begin_node());
    assert_eq!(item.name().unwrap(), name);
}

fn assert_property(iter: &mut DtbStructIterator, name: &str, value: &[u8]) {
    let item = iter.next().unwrap();
    assert!(item.is_property());
    assert_eq!(item.name().unwrap(), name);
    assert_eq!(item.value().unwrap(), value);
}

fn assert_str_property(iter: &mut DtbStructIterator, name: &str, value: &str) {
    assert_str_list_property(iter, name, &[value]);
}

fn assert_str_list_property(iter: &mut DtbStructIterator, name: &str, value: &[&str]) {
    let mut bytes = Vec::new();
    for text in value {
        bytes.extend_from_slice(text.as_bytes());
        bytes.push(0);
    }
    assert_property(iter, name, &bytes);
}

fn assert_u32_list_property(iter: &mut DtbStructIterator, name: &str, value: &[u32]) {
    assert_property(iter, name, &cells(value));
}

#[test]
fn test_struct_enum() {
    let buf = sample();
    let mut iter = DtbReader::new(&buf).unwrap().struct_iter();
    assert_node(&mut iter, "");
    assert_node(&mut iter, "node1");
    assert_str_property(&mut iter, "a-string-property", "A string");
    assert_str_list_property(
        &mut iter,
        "a-string-list-property",
        &["first string", "second string"],
    );
    assert_eq!(
        iter.next().unwrap(),
        StructItem::Property {
            name: "a-byte-data-property",
            value: &[0x01, 0x23, 0x34, 0x56],
        }
    );
    assert_node(&mut iter, "child-node1");
    assert_eq!(
        iter.next().unwrap(),
        StructItem::Property {
            name: "first-child-property",
            value: &[],
        }
    );
    assert_u32_list_property(&mut iter, "second-child-property", &[1]);
    assert_str_property(&mut iter, "a-string-property", "Hello, world");
    assert_eq!(iter.next().unwrap(), StructItem::EndNode);
    assert_node(&mut iter, "child-node2");
    assert_eq!(iter.next().unwrap(), StructItem::EndNode);
    assert_eq!(iter.next().unwrap(), StructItem::EndNode);
    assert_node(&mut iter, "node2");
    assert_eq!(
        iter.next().unwrap(),
        StructItem::Property {
            name: "an-empty-property",
            value: &[],
        }
    );
    assert_u32_list_property(&mut iter, "a-cell-property", &[1, 2, 3, 4]);
    assert_node(&mut iter, "child-node1");
    assert_eq!(iter.next().unwrap(), StructItem::EndNode);
    assert_eq!(iter.next().unwrap(), StructItem::EndNode);
    assert_eq!(iter.next().unwrap(), StructItem::EndNode);
    assert_eq!(iter.next().unwrap_err(), Error::NoMoreStructItems);
    assert_eq!(iter.next().unwrap_err(), Error::NoMoreStructItems);
}

fn assert_not_found(iter: &DtbStructIterator, path: &str) {
    let err = iter.find(path).unwrap_err();
    assert_eq!(err, Error::NoMoreStructItems);
}

fn name_from_path(path: &str) -> &str {
    path.trim_end_matches("/").rsplit("/").next().unwrap()
}

fn assert_begin_node_found<'a>(iter: &DtbStructIterator<'a>, path: &str) -> DtbStructIterator<'a> {
    let (item, iter) = iter.find(path).unwrap();
    assert!(item.is_begin_node());
    assert_eq!(item.name().unwrap(), name_from_path(path));
    iter
}

fn assert_property_found(iter: &DtbStructIterator, path: &str, value: &[u8]) {
    let (item, _) = iter.find(path).unwrap();
    assert!(item.is_property());
    assert_eq!(item.name().unwrap(), name_from_path(path));
    assert_eq!(item.value().unwrap(), value);
}

#[test]
fn test_find() {
    let buf = sample();
    let root = DtbReader::new(&buf).unwrap().struct_iter();

    assert_begin_node_found(&root, "");
    assert_begin_node_found(&root, "/");
    assert_not_found(&root, "//");

    let iter = assert_begin_node_found(&root, "/node1");
    assert_not_found(&root, "node1");

    let val = "A string\0".as_bytes();
    assert_not_found(&root, "/a-string-property");
    assert_not_found(&root, "a-string-property");
    assert_property_found(&iter, "a-string-property", val);
    assert_property_found(&root, "/node1/a-string-property", val);

    let iter = assert_begin_node_found(&root, "/node2");
    assert_begin_node_found(&root, "/node2/");
    assert_property_found(&root, "/node2/an-empty-property", &[]);
    assert_property_found(&iter, "an-empty-property", &[]);
    assert_not_found(&root, "an-empty-property");
    assert_not_found(&iter, "/node2/an-empty-property");

    assert_not_found(&iter, "node1/child-node1/a-string-property");
    assert_property_found(
        &root,
        "/node1/child-node1/a-string-property/",
        "Hello, world\0".as_bytes(),
    );
}

#[test]
fn find_goes_by_pieces() {
    let buf = sample();
    let root = DtbReader::new(&buf).unwrap().struct_iter();
    let (item, behind) = root.find("/node1/child-node1/second-child-property").unwrap();
    let (_, node) = root.find("/node1").unwrap();
    let (same_item, same_place) = node.find("child-node1/second-child-property").unwrap();
    assert_eq!(item, same_item);
    let mut left = behind.clone();
    let mut right = same_place.clone();
    for _ in 0..20 {
        assert_eq!(left.next(), right.next());
    }
}

#[test]
fn find_leaves_the_iterator_in_place() {
    let buf = sample();
    let mut root = DtbReader::new(&buf).unwrap().struct_iter();
    root.find("/node2/a-cell-property").unwrap();
    root.find("/nowhere").unwrap_err();
    assert_node(&mut root, "");
}

#[test]
fn find_continues_behind_a_property() {
    let buf = sample();
    let root = DtbReader::new(&buf).unwrap().struct_iter();
    let (item, _) = root.find("/node1/a-string-property/child-node1").unwrap();
    assert_eq!(item, StructItem::BeginNode { name: "child-node1" });
}

#[test]
fn find_enters_the_next_sibling() {
    // Depth is counted from the place of the iterator, so leaving `node1` and entering `node2`
    // leads to depth zero again.
    let buf = sample();
    let root = DtbReader::new(&buf).unwrap().struct_iter();
    let (_, node1) = root.find("/node1").unwrap();
    let (item, _) = node1.find("an-empty-property").unwrap();
    assert_eq!(item, StructItem::Property { name: "an-empty-property", value: &[] });
}

#[test]
fn find_takes_the_first_match() {
    let mut tree = Tree::new();
    tree.begin("");
    tree.begin("same");
    tree.property("number", &[1]);
    tree.end();
    tree.begin("same");
    tree.property("number", &[2]);
    tree.end();
    tree.end();
    let buf = tree.finish();
    let root = DtbReader::new(&buf).unwrap().struct_iter();
    let (item, behind) = root.find("/same/number").unwrap();
    assert_eq!(item.value().unwrap(), &[1]);
    assert_not_found(&root, "/number");
    let mut behind = behind;
    assert_eq!(behind.next(), Ok(StructItem::EndNode));
    assert_eq!(behind.next(), Ok(StructItem::BeginNode { name: "same" }));
}

#[test]
fn find_handles_other_scripts() {
    let mut tree = Tree::new();
    tree.begin("");
    tree.begin("caf\u{e9}");
    tree.property("\u{6c34}/", &[7]);
    tree.property("\u{6c34}", &[8]);
    tree.property("\u{1f600}", &[9]);
    tree.end();
    tree.end();
    let buf = tree.finish();
    let root = DtbReader::new(&buf).unwrap().struct_iter();
    let (item, _) = root.find("/caf\u{e9}/\u{6c34}").unwrap();
    assert_eq!(item, StructItem::Property { name: "\u{6c34}", value: &[8] });
    let (item, _) = root.find("/caf\u{e9}/\u{1f600}/").unwrap();
    assert_eq!(item, StructItem::Property { name: "\u{1f600}", value: &[9] });
    assert_not_found(&root, "/cafe/\u{6c34}");
}

#[test]
fn item_accessors() {
    let node = StructItem::BeginNode { name: "n" };
    let property = StructItem::Property { name: "p", value: &[1, 2] };
    let end = StructItem::EndNode;
    assert!(node.is_begin_node() && !node.is_property());
    assert!(!property.is_begin_node() && property.is_property());
    assert!(!end.is_begin_node() && !end.is_property());
    assert_eq!(node.name(), Some("n"));
    assert_eq!(property.name(), Some("p"));
    assert_eq!(end.name(), None);
    assert_eq!(node.value(), None);
    assert_eq!(property.value(), Some(&[1u8, 2][..]));
    assert_eq!(end.value(), None);
}
