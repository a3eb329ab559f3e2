//! The discrete parts of a transaction's features and of the labels of the
//! reference data.

use vstd::prelude::*;

verus! {

/// Label byte of a reference transaction: 1 when its label is `fraud`, 0
/// for any other label.
pub open spec fn label_code_of(label: Seq<char>) -> u8 {
    if label == "fraud"@ {
        1
    } else {
        0
    }
}

/// Label byte of a reference transaction's label.
pub fn label_code(label: &String) -> (code: u8)
    ensures
        code == label_code_of(label@),
{
    let fraud = "fraud".to_owned();
    if *label == fraud {
        1
    } else {
        0
    }
}

/// Risk of a merchant category code, in hundredths: the known codes have
/// their own risk, any other code is of risk 50.
pub open spec fn mcc_risk_of(mcc: Seq<char>) -> u32 {
    if mcc == "5411"@ {
        15
    } else if mcc == "5812"@ {
        30
    } else if mcc == "5912"@ {
        20
    } else if mcc == "5944"@ {
        45
    } else if mcc == "7801"@ {
        80
    } else if mcc == "7802"@ {
        75
    } else if mcc == "7995"@ {
        85
    } else if mcc == "4511"@ {
        35
    } else if mcc == "5311"@ {
        25
    } else {
        50
    }
}

/// Risk of the merchant category code `mcc`, in hundredths.
pub fn mcc_risk_percent(mcc: &String) -> (risk: u32)
    ensures
        risk == mcc_risk_of(mcc@),
{
    if *mcc == "5411".to_owned() {
        15
    } else if *mcc == "5812".to_owned() {
        30
    } else if *mcc == "5912".to_owned() {
        20
    } else if *mcc == "5944".to_owned() {
        45
    } else if *mcc == "7801".to_owned() {
        80
    } else if *mcc == "7802".to_owned() {
        75
    } else if *mcc == "7995".to_owned() {
        85
    } else if *mcc == "4511".to_owned() {
        35
    } else if *mcc == "5311".to_owned() {
        25
    } else {
        50
    }
}

/// Whether `id` is missing from the customer's known merchants.
pub fn is_unknown_merchant(known: &Vec<String>, id: &String) -> (res: bool)
    ensures
        res == !(exists|i: int| 0 <= i < known@.len() && (#[trigger] known@[i])@ == id@),
{
    let mut i: usize = 0;
    while i < known.len()
        invariant
            i <= known@.len(),
            forall|t: int| 0 <= t < i ==> (#[trigger] known@[t])@ != id@,
        decreases known@.len() - i,
    {
        if known[i] == *id {
            return false;
        }
        i = i + 1;
    }
    true
}

/// The ten codes of the risk table are pairwise different.
proof fn lemma_table_codes_distinct()
    ensures
        "5812"@ != "5411"@,
        "5912"@ != "5411"@,
        "5912"@ != "5812"@,
        "5944"@ != "5411"@,
        "5944"@ != "5812"@,
        "5944"@ != "5912"@,
        "7801"@ != "5411"@,
        "7801"@ != "5812"@,
        "7801"@ != "5912"@,
        "7801"@ != "5944"@,
        "7802"@ != "5411"@,
        "7802"@ != "5812"@,
        "7802"@ != "5912"@,
        "7802"@ != "5944"@,
        "7802"@ != "7801"@,
        "7995"@ != "5411"@,
        "7995"@ != "5812"@,
        "7995"@ != "5912"@,
        "7995"@ != "5944"@,
        "7995"@ != "7801"@,
        "7995"@ != "7802"@,
        "4511"@ != "5411"@,
        "4511"@ != "5812"@,
        "4511"@ != "5912"@,
        "4511"@ != "5944"@,
        "4511"@ != "7801"@,
        "4511"@ != "7802"@,
        "4511"@ != "7995"@,
        "5311"@ != "5411"@,
        "5311"@ != "5812"@,
        "5311"@ != "5912"@,
        "5311"@ != "5944"@,
        "5311"@ != "7801"@,
        "5311"@ != "7802"@,
        "5311"@ != "7995"@,
        "5311"@ != "4511"@,
        "5999"@ != "5411"@,
        "5999"@ != "5812"@,
        "5999"@ != "5912"@,
        "5999"@ != "5944"@,
        "5999"@ != "7801"@,
        "5999"@ != "7802"@,
        "5999"@ != "7995"@,
        "5999"@ != "4511"@,
        "5999"@ != "5311"@,
{
    reveal_strlit("5411");
    reveal_strlit("5812");
    reveal_strlit("5912");
    reveal_strlit("5944");
    reveal_strlit("7801");
    reveal_strlit("7802");
    reveal_strlit("7995");
    reveal_strlit("4511");
    reveal_strlit("5311");
    reveal_strlit("5999");
    assert("5812"@ != "5411"@) by {
        assert("5812"@[1] != "5411"@[1]);
    }
    assert("5912"@ != "5411"@) by {
        assert("5912"@[1] != "5411"@[1]);
    }
    assert("5912"@ != "5812"@) by {
        assert("5912"@[1] != "5812"@[1]);
    }
    assert("5944"@ != "5411"@) by {
        assert("5944"@[1] != "5411"@[1]);
    }
    assert("5944"@ != "5812"@) by {
        assert("5944"@[1] != "5812"@[1]);
    }
    assert("5944"@ != "5912"@) by {
        assert("5944"@[2] != "5912"@[2]);
    }
    assert("7801"@ != "5411"@) by {
        assert("7801"@[0] != "5411"@[0]);
    }
    assert("7801"@ != "5812"@) by {
        assert("7801"@[0] != "5812"@[0]);
    }
    assert("7801"@ != "5912"@) by {
        assert("7801"@[0] != "5912"@[0]);
    }
    assert("7801"@ != "5944"@) by {
        assert("7801"@[0] != "5944"@[0]);
    }
    assert("7802"@ != "5411"@) by {
        assert("7802"@[0] != "5411"@[0]);
    }
    assert("7802"@ != "5812"@) by {
        assert("7802"@[0] != "5812"@[0]);
    }
    assert("7802"@ != "5912"@) by {
        assert("7802"@[0] != "5912"@[0]);
    }
    assert("7802"@ != "5944"@) by {
        assert("7802"@[0] != "5944"@[0]);
    }
    assert("7802"@ != "7801"@) by {
        assert("7802"@[3] != "7801"@[3]);
    }
    assert("7995"@ != "5411"@) by {
        assert("7995"@[0] != "5411"@[0]);
    }
    assert("7995"@ != "5812"@) by {
        assert("7995"@[0] != "5812"@[0]);
    }
    assert("7995"@ != "5912"@) by {
        assert("7995"@[0] != "5912"@[0]);
    }
    assert("7995"@ != "5944"@) by {
        assert("7995"@[0] != "5944"@[0]);
    }
    assert("7995"@ != "7801"@) by {
        assert("7995"@[1] != "7801"@[1]);
    }
    assert("7995"@ != "7802"@) by {
        assert("7995"@[1] != "7802"@[1]);
    }
    assert("4511"@ != "5411"@) by {
        assert("4511"@[0] != "5411"@[0]);
    }
    assert("4511"@ != "5812"@) by {
        assert("4511"@[0] != "5812"@[0]);
    }
    assert("4511"@ != "5912"@) by {
        assert("4511"@[0] != "5912"@[0]);
    }
    assert("4511"@ != "5944"@) by {
        assert("4511"@[0] != "5944"@[0]);
    }
    assert("4511"@ != "7801"@) by {
        assert("4511"@[0] != "7801"@[0]);
    }
    assert("4511"@ != "7802"@) by {
        assert("4511"@[0] != "7802"@[0]);
    }
    assert("4511"@ != "7995"@) by {
        assert("4511"@[0] != "7995"@[0]);
    }
    assert("5311"@ != "5411"@) by {
        assert("5311"@[1] != "5411"@[1]);
    }
    assert("5311"@ != "5812"@) by {
        assert("5311"@[1] != "5812"@[1]);
    }
    assert("5311"@ != "5912"@) by {
        assert("5311"@[1] != "5912"@[1]);
    }
    assert("5311"@ != "5944"@) by {
        assert("5311"@[1] != "5944"@[1]);
    }
    assert("5311"@ != "7801"@) by {
        assert("5311"@[0] != "7801"@[0]);
    }
    assert("5311"@ != "7802"@) by {
        assert("5311"@[0] != "7802"@[0]);
    }
    assert("5311"@ != "7995"@) by {
        assert("5311"@[0] != "7995"@[0]);
    }
    assert("5311"@ != "4511"@) by {
        assert("5311"@[0] != "4511"@[0]);
    }
    assert("5999"@ != "5411"@) by {
        assert("5999"@[1] != "5411"@[1]);
    }
    assert("5999"@ != "5812"@) by {
        assert("5999"@[1] != "5812"@[1]);
    }
    assert("5999"@ != "5912"@) by {
        assert("5999"@[2] != "5912"@[2]);
    }
    assert("5999"@ != "5944"@) by {
        assert("5999"@[2] != "5944"@[2]);
    }
    assert("5999"@ != "7801"@) by {
        assert("5999"@[0] != "7801"@[0]);
    }
    assert("5999"@ != "7802"@) by {
        assert("5999"@[0] != "7802"@[0]);
    }
    assert("5999"@ != "7995"@) by {
        assert("5999"@[0] != "7995"@[0]);
    }
    assert("5999"@ != "4511"@) by {
        assert("5999"@[0] != "4511"@[0]);
    }
    assert("5999"@ != "5311"@) by {
        assert("5999"@[1] != "5311"@[1]);
    }
}

/// Labels: `fraud` is coded 1, and every other label 0.
pub proof fn lemma_label_codes(label: Seq<char>)
    ensures
        label == "fraud"@ ==> label_code_of(label) == 1,
        label != "fraud"@ ==> label_code_of(label) == 0,
{
}

/// The merchant category risk table, in hundredths: 5411 is 15, 5812 is 30,
/// 5912 is 20, 5944 is 45, 7801 is 80, 7802 is 75, 7995 is 85, 4511 is 35,
/// 5311 is 25 and 5999 is 50; every code other than these ten is 50.
pub proof fn lemma_mcc_risk_table(mcc: Seq<char>)
    ensures
        mcc_risk_of("5411"@) == 15,
        mcc_risk_of("5812"@) == 30,
        mcc_risk_of("5912"@) == 20,
        mcc_risk_of("5944"@) == 45,
        mcc_risk_of("7801"@) == 80,
        mcc_risk_of("7802"@) == 75,
        mcc_risk_of("7995"@) == 85,
        mcc_risk_of("4511"@) == 35,
        mcc_risk_of("5311"@) == 25,
        mcc_risk_of("5999"@) == 50,
        mcc != "5411"@ && mcc != "5812"@ && mcc != "5912"@ && mcc != "5944"@ && mcc != "7801"@ && mcc
            != "7802"@ && mcc != "7995"@ && mcc != "4511"@ && mcc != "5311"@ && mcc != "5999"@
            ==> mcc_risk_of(mcc) == 50,
{
    lemma_table_codes_distinct();
}

} // verus!
