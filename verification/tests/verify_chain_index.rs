use bdk_core::sparse_chain::ChainIndex;
use bdk_core::{ConfirmationTime, TxHeight};

fn verify_chain_index<I: ChainIndex>(head_count: u32, tail_count: u32) {
    let values = (0..head_count)
        .chain(u32::MAX - tail_count..u32::MAX)
        .flat_map(|i| {
            [
                I::min_ord_of_height(TxHeight::Confirmed(i)),
                I::max_ord_of_height(TxHeight::Confirmed(i)),
            ]
        })
        .chain([
            I::min_ord_of_height(TxHeight::Unconfirmed),
            I::max_ord_of_height(TxHeight::Unconfirmed),
        ])
        .collect::<Vec<_>>();

    for i in 0..values.len() {
        for j in 0..values.len() {
            if i == j {
                assert_eq!(values[i], values[j]);
            }
            if i < j {
                assert!(values[i] <= values[j]);
            }
            if i > j {
                assert!(values[i] >= values[j]);
            }
        }
    }
}

#[test]
fn verify_tx_height() {
    verify_chain_index::<TxHeight>(1000, 1000);
}

#[test]
fn verify_confirmation_time() {
    verify_chain_index::<ConfirmationTime>(1000, 1000);
}

/// The derived `cmp` orders as `<` does.
#[test]
fn order_and_comparison_agree() {
    let heights = [
        TxHeight::Confirmed(0),
        TxHeight::Confirmed(7),
        TxHeight::Confirmed(u32::MAX),
        TxHeight::Unconfirmed,
    ];
    for (i, a) in heights.iter().enumerate() {
        for (j, b) in heights.iter().enumerate() {
            assert_eq!(a.cmp(b), i.cmp(&j));
            assert_eq!(a.partial_cmp(b), Some(i.cmp(&j)));
            assert_eq!(a == b, i == j);
        }
    }
    let times = [
        ConfirmationTime::Confirmed { height: 1, time: 9 },
        ConfirmationTime::Confirmed { height: 2, time: 3 },
        ConfirmationTime::Confirmed { height: 2, time: 4 },
        ConfirmationTime::Unconfirmed,
    ];
    for (i, a) in times.iter().enumerate() {
        for (j, b) in times.iter().enumerate() {
            assert_eq!(a.cmp(b), i.cmp(&j));
            assert_eq!(a.partial_cmp(b), Some(i.cmp(&j)));
            assert_eq!(a == b, i == j);
        }
    }
}

#[test]
fn confirmation_time_bounds() {
    let min = ConfirmationTime::min_ord_of_height(TxHeight::Confirmed(5));
    let max = ConfirmationTime::max_ord_of_height(TxHeight::Confirmed(5));
    assert_eq!(min, ConfirmationTime::Confirmed { height: 5, time: 0 });
    assert_eq!(max, ConfirmationTime::Confirmed { height: 5, time: u64::MAX });
    assert_eq!(min.height(), TxHeight::Confirmed(5));
    assert_eq!(ConfirmationTime::Unconfirmed.height(), TxHeight::Unconfirmed);
    assert!(TxHeight::Confirmed(3).is_confirmed());
    assert!(!TxHeight::Unconfirmed.is_confirmed());
}
