use regex::Regex;
use uv_detect::dependency::Dependency;

type Fields = (String, Vec<String>, Option<(String, String)>, Option<String>);

fn by_pattern(input: &str) -> Option<Fields> {
    let re = Regex::new(r#"^([A-Za-z0-9\-_.]+)(?:\[(.*?)\])?(?:\s*([~=<>!]={1,2}|[<>]|\^)\s*([\d\w\-.]+))?\s*(?:;\s*(.+))?"#).unwrap();
    let caps = re.captures(input)?;
    let name = caps.get(1)?.as_str().to_string();
    let mut extras: Vec<String> = caps
        .get(2)
        .map(|m| m.as_str().split(',').map(|s| s.trim().to_string()).collect())
        .unwrap_or_default();
    extras.sort();
    extras.dedup();
    let version_spec = match (caps.get(3), caps.get(4)) {
        (Some(spec), Some(ver)) => Some((spec.as_str().to_string(), ver.as_str().to_string())),
        _ => None,
    };
    let markers = caps.get(5).map(|m| m.as_str().to_string());
    Some((name, extras, version_spec, markers))
}

fn by_library(input: &str) -> Option<Fields> {
    let d = Dependency::parse(input)?;
    Some((d.name(), d.extras(), d.version_spec(), d.markers()))
}

#[test]
fn grammar_agrees_with_the_pattern() {
    let inputs = [
        "Django",
        "Django~=3.2",
        "Django[mysql,redis]",
        "pandas; platform_system != 'Windows'",
        "pandas[excel,postgres]>=1.3.0; platform_system != 'Windows'",
        "",
        " x",
        "x ",
        "x[",
        "x[]",
        "x[a,,b]",
        "x[ b , a ]",
        "x[a\nb]",
        "x[a]b]",
        "x===1",
        "x<==1",
        "x<=",
        "x<=;m",
        "x ^ 1.0-beta_2",
        "x !=\t1",
        "x~=1 ; y",
        "x;",
        "x; ",
        "x;\n",
        "x; \n",
        "x;  \n\n",
        "x;\t \n",
        "x; a\nb",
        "x==1.0é",
        "x==é1",
        "x==1;",
        "x == 1 ; ; ;",
        "x\u{a0};\u{3000}m",
        "x\u{2028}==\u{85}1",
        "x>=1.0 extra",
        "ab.c-d_e[f]==1",
        "x=1",
        "x!1",
        "x<>1",
        "x>=<1",
        "x[a]>=1[b]",
        "x;\u{2003}",
        "x==٣",
        "x==a\u{300}b",
    ];
    for input in inputs {
        assert_eq!(by_library(input), by_pattern(input), "input {:?}", input);
    }
}
