use kairo::{AppBuilder, Box, CanvasState, Connection, ConnectionType};
use serde_json::Value;

fn kind_name(kind: ConnectionType) -> &'static str {
    match kind {
        ConnectionType::NoDirection => "None",
        ConnectionType::Forward => "Forward",
        ConnectionType::Bidirectional => "Bidirectional",
    }
}

fn kind_of(name: &str) -> ConnectionType {
    match name {
        "None" => ConnectionType::NoDirection,
        "Forward" => ConnectionType::Forward,
        "Bidirectional" => ConnectionType::Bidirectional,
        other => panic!("no connection type is named {}", other),
    }
}

fn written(state: &CanvasState) -> String {
    let mut boxes = Vec::new();
    for b in &state.boxes {
        let mut fields = serde_json::Map::new();
        fields.insert("id".to_string(), Value::from(b.id.clone()));
        fields.insert("x".to_string(), Value::from(b.x));
        fields.insert("y".to_string(), Value::from(b.y));
        fields.insert("width".to_string(), Value::from(b.width));
        fields.insert("height".to_string(), Value::from(b.height));
        fields.insert("text".to_string(), Value::from(b.text.clone()));
        fields.insert("selected".to_string(), Value::from(b.selected));
        fields.insert("color".to_string(), Value::from(b.color.clone()));
        boxes.push(Value::Object(fields));
    }
    let mut connections = Vec::new();
    for c in &state.connections {
        let mut fields = serde_json::Map::new();
        fields.insert("from".to_string(), Value::from(c.from.clone()));
        fields.insert("to".to_string(), Value::from(c.to.clone()));
        fields.insert("type".to_string(), Value::from(kind_name(c.kind)));
        connections.push(Value::Object(fields));
    }
    let mut canvas = serde_json::Map::new();
    canvas.insert("boxes".to_string(), Value::Array(boxes));
    canvas.insert("connections".to_string(), Value::Array(connections));
    serde_json::to_string(&Value::Object(canvas)).unwrap()
}

fn number(value: &Value) -> i32 {
    i32::try_from(value.as_i64().unwrap()).unwrap()
}

fn read(text: &str) -> CanvasState {
    let canvas: Value = serde_json::from_str(text).unwrap();
    let mut state = CanvasState::default();
    for b in canvas["boxes"].as_array().unwrap() {
        state.boxes.push(Box {
            id: b["id"].as_str().unwrap().to_string(),
            x: number(&b["x"]),
            y: number(&b["y"]),
            width: number(&b["width"]),
            height: number(&b["height"]),
            text: b["text"].as_str().unwrap().to_string(),
            selected: b["selected"].as_bool().unwrap(),
            color: b.get("color").and_then(|c| c.as_str()).map(|c| c.to_string()),
        });
    }
    for c in canvas["connections"].as_array().unwrap() {
        state.connections.push(Connection {
            from: c["from"].as_str().unwrap().to_string(),
            to: c["to"].as_str().unwrap().to_string(),
            kind: kind_of(c["type"].as_str().unwrap()),
        });
    }
    state
}

fn sample() -> CanvasState {
    let mut app = AppBuilder::new().build();
    app.add_box("a".to_string(), 0, 0, 10, 10, "first \"box\"".to_string(), true, None);
    app.add_box("b".to_string(), 10, 0, 10, 10, "zweite\nZeile".to_string(), false, Some("#00ff00".to_string()));
    app.add_box("c".to_string(), -40, i32::MAX, 0, 7, String::new(), false, Some(String::new()));
    app.add_connection("a".to_string(), "b".to_string());
    app.cycle_connection_type("a".to_string(), "b".to_string());
    app.add_connection("c".to_string(), "a".to_string());
    app.add_connection("b".to_string(), "c".to_string());
    app.cycle_connection_type("b".to_string(), "c".to_string());
    app.cycle_connection_type("b".to_string(), "c".to_string());
    app.move_box("a".to_string(), 5, 0);
    app.get_full_state()
}

#[test]
fn canvas_written_and_read_again_is_the_same_canvas() {
    let before = sample();
    assert_eq!(before.boxes.len(), 3);
    assert_eq!(before.connections[0].kind, ConnectionType::Bidirectional);
    let text = written(&before);
    let mut app = AppBuilder::new().build();
    let loaded = app.load_new_state(read(&text));
    assert_eq!(written(&loaded), text);
    assert_eq!(written(&app.get_full_state()), text);
    let kept = app.get_full_state();
    for (a, b) in before.boxes.iter().zip(kept.boxes.iter()) {
        assert_eq!((&a.id, a.x, a.y, a.width, a.height), (&b.id, b.x, b.y, b.width, b.height));
        assert_eq!((&a.text, a.selected, &a.color), (&b.text, b.selected, &b.color));
    }
    for (a, b) in before.connections.iter().zip(kept.connections.iter()) {
        assert_eq!((&a.from, &a.to, a.kind), (&b.from, &b.to, b.kind));
    }
    assert_eq!(kept.boxes.len(), before.boxes.len());
    assert_eq!(kept.connections.len(), before.connections.len());
}

#[test]
fn written_canvas_has_the_shape_of_the_document() {
    let text = written(&sample());
    let canvas: Value = serde_json::from_str(&text).unwrap();
    let fields: Vec<&str> = canvas.as_object().unwrap().keys().map(|k| k.as_str()).collect();
    assert_eq!(fields, vec!["boxes", "connections"]);
    assert_eq!(canvas["boxes"][0]["id"], Value::from("a"));
    assert_eq!(canvas["boxes"][0]["x"], Value::from(5));
    assert_eq!(canvas["boxes"][0]["color"], Value::Null);
    assert_eq!(canvas["boxes"][1]["x"], Value::from(15));
    assert_eq!(canvas["boxes"][1]["color"], Value::from("#00ff00"));
    assert_eq!(canvas["connections"][0]["type"], Value::from("Bidirectional"));
    assert_eq!(canvas["connections"][1]["type"], Value::from("Forward"));
    assert_eq!(canvas["connections"][2]["type"], Value::from("None"));
}

#[test]
fn box_without_a_color_is_read_as_one_with_none() {
    let text = "{\"boxes\":[{\"id\":\"a\",\"x\":1,\"y\":2,\"width\":3,\"height\":4,\
                \"text\":\"t\",\"selected\":false}],\"connections\":[]}";
    let mut app = AppBuilder::new().build();
    let loaded = app.load_new_state(read(text));
    assert_eq!(loaded.boxes.len(), 1);
    assert_eq!(loaded.boxes[0].color, None);
    assert_eq!((loaded.boxes[0].x, loaded.boxes[0].y), (1, 2));
}
