use wikiwho::params::RawTokenParams;
use wikiwho::response::ResponseParameters;

fn raw(o_rev_id: &str, editor: &str, token_id: &str, inb: &str, outb: &str) -> RawTokenParams {
    RawTokenParams {
        o_rev_id: Some(o_rev_id.into()),
        editor: Some(editor.into()),
        token_id: Some(token_id.into()),
        inbound: Some(inb.into()),
        outbound: Some(outb.into()),
    }
}

#[test]
fn empty_params_yield_none() {
    assert_eq!(
        RawTokenParams::default().into_response_parameters(),
        ResponseParameters::none()
    );
}

#[test]
fn all_true_yields_all() {
    let p = raw("true", "true", "true", "true", "true").into_response_parameters();
    assert_eq!(p, ResponseParameters::all());
}

#[test]
fn non_true_values_count_as_false() {
    for v in &["True", "1", "", "yes", "TRUE"] {
        let p = RawTokenParams {
            o_rev_id: Some((*v).into()),
            ..Default::default()
        }
        .into_response_parameters();
        assert!(!p.o_rev_id, "{v} should disable o_rev_id");
    }
}

#[test]
fn in_and_out_map_to_inbound_outbound_in_struct() {
    let p = RawTokenParams {
        inbound: Some("true".into()),
        outbound: Some("true".into()),
        ..Default::default()
    }
    .into_response_parameters();
    assert!(p.inbound);
    assert!(p.outbound);
    assert!(!p.editor);
}
