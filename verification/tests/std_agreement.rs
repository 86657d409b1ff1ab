//! The readers agree with the same reading written with std's own string
//! functions (`lines`, `trim`, `split_once`, `trim_matches`).
use oval::os::parse_os_release;
use oval::pacman::PacmanCollector;
use std::collections::HashMap;

fn os_release_with_std(content: &str) -> [String; 4] {
    let mut fields = [String::new(), String::new(), String::new(), String::new()];
    for line in content.lines() {
        let line = line.trim();
        if line.is_empty() || line.starts_with('#') {
            continue;
        }
        let Some((key, value)) = line.split_once('=') else {
            continue;
        };
        let value = value.trim().trim_matches('"').to_string();
        match key {
            "NAME" => fields[0] = value,
            "PRETTY_NAME" => fields[1] = value,
            "ID" => fields[2] = value,
            "BUILD_ID" => fields[3] = value,
            _ => {}
        }
    }
    fields
}

fn alpm_with_std(content: &str) -> HashMap<String, Vec<String>> {
    let mut desc: HashMap<String, Vec<String>> = HashMap::new();
    let mut current_field: Option<String> = None;
    let mut values: Vec<String> = Vec::new();
    for line in content.lines() {
        match line {
            "" => (),
            val if val.starts_with('%') && val.ends_with('%') => {
                if let Some(field) = current_field.take() {
                    desc.insert(field, std::mem::take(&mut values));
                }
                current_field = Some(val.trim_matches('%').to_owned());
            }
            val => {
                if current_field.is_some() {
                    values.push(val.to_owned());
                }
            }
        }
    }
    if let Some(field) = current_field {
        desc.insert(field, values);
    }
    desc
}

const SAMPLES: &[&str] = &[
    "",
    "\n",
    "\r\n",
    "\r",
    "a\rb\r\n\r\n",
    "NAME=x\r",
    "NAME=x\r\r\n",
    " NAME = y \nNAME= \" z \" \n",
    "#c\n  #NAME=q\nNAME\nNAME==\nID=\"\"\"\n",
    "\u{2028}ID=\u{85}a\u{200a}\n\u{feff}ID=b\n",
    "BUILD_ID='x'\nPRETTY_NAME=\"Arch\" Linux\"\n\n\n",
    "%NAME%\nalpha\n\n%VERSION%\n1\n",
    "%NAME%\r\nx\r\n%%\r\n\r\n%\n%\nv\n",
    "orphan\n%A%\n a \n%B\nB%\n%C%\n",
    "%A%\n1\n%A%\n2\n%B%",
    "%%A%%\n%A%%%\nx\n%\u{3000}%\ny",
    "%ü%\nwert\n%NAME%\nnämlich\n",
];

#[test]
fn os_release_agrees_with_std() {
    for sample in SAMPLES {
        let info = parse_os_release(sample).expect("parsing never fails");
        let expected = os_release_with_std(sample);
        assert_eq!(info.name(), expected[0], "NAME of {:?}", sample);
        assert_eq!(info.pretty_name(), expected[1], "PRETTY_NAME of {:?}", sample);
        assert_eq!(info.id(), expected[2], "ID of {:?}", sample);
        assert_eq!(info.build_id(), expected[3], "BUILD_ID of {:?}", sample);
    }
}

#[test]
fn alpm_content_agrees_with_std() {
    let runner = ();
    let collector = PacmanCollector::new(&runner);
    for sample in SAMPLES {
        let desc = collector.parse_alpm_content(sample);
        let expected = alpm_with_std(sample);
        for (name, values) in &expected {
            assert_eq!(desc.get(name), Some(values), "field {:?} of {:?}", name, sample);
        }
        for probe in ["", "A", "B", "C", "NAME", "VERSION", "%A%", "orphan", "ü", "\u{3000}"] {
            assert_eq!(
                desc.get(probe).is_some(),
                expected.contains_key(probe),
                "presence of {:?} in {:?}",
                probe,
                sample
            );
        }
    }
}
